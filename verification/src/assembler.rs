//! The textual assembler both machines share. A program is read line by
//! line: a name at column 0 declares a label at the current address, an
//! indented line holds one instruction, `#` starts a comment and `END` stops
//! assembly. Which mnemonics exist, which argument each takes and how a
//! label argument resolves is data: a dialect table, one per machine. A
//! second pass rewrites each label-bearing instruction with its concrete
//! target.

use vstd::prelude::*;
use crate::lexer::{Lexer, Token, TokenV, LexError, LexErrorV, LexStep, next_token_spec};
use crate::maps::{LabelMap, AddrMap};
use crate::text::{trim_end_len, trimmed_end, find_nl, find_nl_from, copy_range, str_eq, dec_string};
use crate::value::Value;

verus! {

/// How a label argument is resolved: to nothing, to an instruction index,
/// or to a memory address.
#[derive(Debug, Clone, Copy, PartialEq, Eq, Structural)]
pub enum ArgForm {
    NoArg,
    LabelIc,
    LabelMem,
    Num,
    Str,
}

/// One mnemonic of a dialect and the argument it takes.
#[derive(Debug)]
pub struct OpDesc {
    pub name: String,
    pub form: ArgForm,
}

/// An instruction set, as the assembler sees it: the mnemonic table and
/// whether the `BLK` pseudo-instruction is accepted.
#[derive(Debug)]
pub struct Dialect {
    pub ops: Vec<OpDesc>,
    pub accept_blk: bool,
}

/// The view of a dialect.
pub struct DialectV {
    pub ops: Seq<(Seq<char>, ArgForm)>,
    pub accept_blk: bool,
}

impl View for Dialect {
    type V = DialectV;

    open spec fn view(&self) -> DialectV {
        DialectV {
            ops: Seq::new(self.ops@.len(), |i: int| (self.ops@[i].name@, self.ops@[i].form)),
            accept_blk: self.accept_blk,
        }
    }
}

/// The argument form of `name`, scanning the table front to back.
pub open spec fn find_form_from(ops: Seq<(Seq<char>, ArgForm)>, name: Seq<char>, i: int) -> Option<
    ArgForm,
>
    recommends
        0 <= i <= ops.len(),
    decreases ops.len() - i,
{
    if i >= ops.len() {
        Option::None
    } else if ops[i].0 == name {
        Option::Some(ops[i].1)
    } else {
        find_form_from(ops, name, i + 1)
    }
}

pub open spec fn find_form(ops: Seq<(Seq<char>, ArgForm)>, name: Seq<char>) -> Option<ArgForm> {
    find_form_from(ops, name, 0)
}

impl Dialect {
    /// Looks the mnemonic up in the table.
    pub fn form_of(&self, name: &str) -> (r: Option<ArgForm>)
        ensures
            r == find_form(self@.ops, name@),
    {
        let mut i: usize = 0;
        while i < self.ops.len()
            invariant
                0 <= i <= self.ops@.len(),
                find_form(self@.ops, name@) == find_form_from(self@.ops, name@, i as int),
            decreases self.ops@.len() - i,
        {
            if str_eq(self.ops[i].name.as_str(), name) {
                return Option::Some(self.ops[i].form);
            }
            i = i + 1;
        }
        Option::None
    }
}

/// One assembled instruction before its own machine gives it meaning: the
/// mnemonic, its argument, and for label arguments the resolved target.
#[derive(Debug)]
pub enum RInstr {
    NoArg(String),
    Branch(String, String, usize),
    MemRef(String, String, u32),
    Num(String, Value),
    Str(String, String),
}

/// The view of an assembled instruction.
pub enum RInstrV {
    NoArg(Seq<char>),
    Branch(Seq<char>, Seq<char>, int),
    MemRef(Seq<char>, Seq<char>, int),
    Num(Seq<char>, int),
    Str(Seq<char>, Seq<char>),
}

impl View for RInstr {
    type V = RInstrV;

    open spec fn view(&self) -> RInstrV {
        match self {
            RInstr::NoArg(m) => RInstrV::NoArg(m@),
            RInstr::Branch(m, l, t) => RInstrV::Branch(m@, l@, *t as int),
            RInstr::MemRef(m, l, a) => RInstrV::MemRef(m@, l@, *a as int),
            RInstr::Num(m, v) => RInstrV::Num(m@, v@),
            RInstr::Str(m, s) => RInstrV::Str(m@, s@),
        }
    }
}

/// The views of a vector of instructions.
pub open spec fn instr_views(v: Seq<RInstr>) -> Seq<RInstrV> {
    Seq::new(v.len(), |i: int| v[i]@)
}

/// Which resolution a resolvable instruction needs, named after the label it
/// carries.
#[derive(Debug)]
pub enum AAAUse {
    Mem(String),
    IC(String),
    Nothing,
}

impl RInstr {
    /// The resolution this instruction asks for.
    pub fn aaa_of(&self) -> (r: AAAUse)
        ensures
            (match self@ {
                RInstrV::Branch(_, l, _) => r matches AAAUse::IC(s) && s@ == l,
                RInstrV::MemRef(_, l, _) => r matches AAAUse::Mem(s) && s@ == l,
                _ => r matches AAAUse::Nothing,
            }),
    {
        match self {
            RInstr::Branch(_, l, _) => AAAUse::IC(l.clone()),
            RInstr::MemRef(_, l, _) => AAAUse::Mem(l.clone()),
            _ => AAAUse::Nothing,
        }
    }
}

/// What can go wrong while loading a program.
#[derive(Debug)]
pub enum AsmError {
    /// The line could not be tokenized.
    Lex(LexError),
    /// A token stood where no token of its kind may stand.
    Unexpected(Token),
    /// An argument token that no instruction line may hold.
    InvalidLine(String),
    /// The mnemonic and argument shape fit no instruction of the dialect.
    InvalidInstruction(String),
    /// `BLK` met a dialect that does not accept it.
    BlkNotAccepted,
    /// `BLK` with a negative or fractional count.
    InvalidBlk,
    /// A label was referenced but never declared.
    UnknownLabel(String),
    /// A label's address fell between instructions.
    UnmatchedAddr(u32),
    /// A label pointed past the last instruction.
    DanglingIc(usize, String),
}

/// The view of a load failure.
pub enum AsmErrorV {
    Lex(LexErrorV),
    Unexpected(TokenV),
    InvalidLine(Seq<char>),
    InvalidInstruction(Seq<char>),
    BlkNotAccepted,
    InvalidBlk,
    UnknownLabel(Seq<char>),
    UnmatchedAddr(int),
    DanglingIc(int, Seq<char>),
}

impl View for AsmError {
    type V = AsmErrorV;

    open spec fn view(&self) -> AsmErrorV {
        match self {
            AsmError::Lex(e) => AsmErrorV::Lex(e@),
            AsmError::Unexpected(t) => AsmErrorV::Unexpected(t@),
            AsmError::InvalidLine(l) => AsmErrorV::InvalidLine(l@),
            AsmError::InvalidInstruction(l) => AsmErrorV::InvalidInstruction(l@),
            AsmError::BlkNotAccepted => AsmErrorV::BlkNotAccepted,
            AsmError::InvalidBlk => AsmErrorV::InvalidBlk,
            AsmError::UnknownLabel(l) => AsmErrorV::UnknownLabel(l@),
            AsmError::UnmatchedAddr(a) => AsmErrorV::UnmatchedAddr(*a as int),
            AsmError::DanglingIc(i, l) => AsmErrorV::DanglingIc(*i as int, l@),
        }
    }
}

/// The text a token shows in a failure message.
pub open spec fn token_text_spec(t: TokenV) -> Seq<char> {
    match t {
        TokenV::WS => "WS"@,
        TokenV::End => "End"@,
        TokenV::Id(s) => "Id(\""@ + s + "\")"@,
        TokenV::Symbol(s) => "Symbol(\""@ + s + "\")"@,
        TokenV::Str(s) => "Str(\""@ + s + "\")"@,
        TokenV::Num(v) => "Num("@ + crate::value::render_value(v) + ")"@,
    }
}

/// A short description of a token, for failure messages.
fn token_text(t: &Token) -> (r: String)
    ensures
        r@ == token_text_spec(t@),
{
    match t {
        Token::WS => String::from_str("WS"),
        Token::End => String::from_str("End"),
        Token::Id(s) => {
            let mut m = String::from_str("Id(\"");
            m.append(s.as_str());
            m.append("\")");
            m
        },
        Token::Symbol(s) => {
            let mut m = String::from_str("Symbol(\"");
            m.append(s.as_str());
            m.append("\")");
            m
        },
        Token::Str(s) => {
            let mut m = String::from_str("Str(\"");
            m.append(s.as_str());
            m.append("\")");
            m
        },
        Token::Num(v) => {
            let mut m = String::from_str("Num(");
            let d = v.render();
            m.append(d.as_str());
            m.append(")");
            m
        },
    }
}

impl AsmError {
    /// The message the failure prints. A message for an unknown label holds
    /// that label.
    pub fn msg(&self) -> (r: String)
        ensures
            (self@ matches AsmErrorV::UnknownLabel(l) ==> r@ == "unknown label "@ + l),
            (self@ matches AsmErrorV::Unexpected(t) ==> r@ == "unexpected "@ + token_text_spec(t)),
            (self@ matches AsmErrorV::UnmatchedAddr(a) ==> r@
                == "internal error: unmatched addr "@ + crate::text::dec_digits(a) + " for ic"@),
            (self@ matches AsmErrorV::DanglingIc(i, l) ==> r@ == "instruction counter "@
                + crate::text::dec_digits(i) + " for "@ + l + " without instruction"@),
            (self@ matches AsmErrorV::Lex(e) ==> (match e {
                LexErrorV::NotASymbol(s) => r@ == "not a symbol "@ + s,
                LexErrorV::InvalidNumber => r@ == "invalid float literal"@,
            })),
            (self@ matches AsmErrorV::InvalidInstruction(l) ==> r@ == "invalid instruction "@ + l),
            (self@ matches AsmErrorV::InvalidLine(l) ==> r@ == "invalid line "@ + l),
            (self@ matches AsmErrorV::BlkNotAccepted ==> r@ == "BLK use is invalid"@),
            (self@ matches AsmErrorV::InvalidBlk ==> r@ == "invalid BLK: {line}"@),
    {
        match self {
            AsmError::Lex(e) => e.msg(),
            AsmError::Unexpected(t) => {
                let mut m = String::from_str("unexpected ");
                let d = token_text(t);
                m.append(d.as_str());
                m
            },
            AsmError::InvalidLine(l) => {
                let mut m = String::from_str("invalid line ");
                m.append(l.as_str());
                m
            },
            AsmError::InvalidInstruction(l) => {
                let mut m = String::from_str("invalid instruction ");
                m.append(l.as_str());
                m
            },
            AsmError::BlkNotAccepted => String::from_str("BLK use is invalid"),
            AsmError::InvalidBlk => String::from_str("invalid BLK: {line}"),
            AsmError::UnknownLabel(l) => {
                let mut m = String::from_str("unknown label ");
                m.append(l.as_str());
                m
            },
            AsmError::UnmatchedAddr(a) => {
                let mut m = String::from_str("internal error: unmatched addr ");
                let d = dec_string(*a as u64);
                m.append(d.as_str());
                m.append(" for ic");
                m
            },
            AsmError::DanglingIc(i, l) => {
                let mut m = String::from_str("instruction counter ");
                let d = dec_string(*i as u64);
                m.append(d.as_str());
                m.append(" for ");
                m.append(l.as_str());
                m.append(" without instruction");
                m
            },
        }
    }
}

/// An assembled program: the instructions, the label and address maps, and
/// the address counter assembly stopped at.
#[derive(Debug)]
pub struct MProgram {
    pub instrs: Vec<RInstr>,
    pub labels: LabelMap,
    pub ic: AddrMap<usize>,
    pub addr: u32,
}

/// The view of a program.
#[verifier::ext_equal]
pub struct ProgV {
    pub instrs: Seq<RInstrV>,
    pub labels: Map<Seq<char>, u32>,
    pub ic: Map<u32, usize>,
    pub addr: u32,
}

impl View for MProgram {
    type V = ProgV;

    open spec fn view(&self) -> ProgV {
        ProgV {
            instrs: instr_views(self.instrs@),
            labels: self.labels@,
            ic: self.ic@,
            addr: self.addr,
        }
    }
}

/// The empty program every assembly starts from.
pub open spec fn empty_prog() -> ProgV {
    ProgV {
        instrs: Seq::empty(),
        labels: Map::empty(),
        ic: Map::empty(),
        addr: 0,
    }
}

/// Address arithmetic saturates at the top of the address space.
pub open spec fn sat_addr(v: int) -> u32 {
    if v > u32::MAX {
        u32::MAX
    } else {
        v as u32
    }
}

/// What declaring a label does: the current address is recorded for the
/// label, and the current instruction index for the address.
pub open spec fn spec_add_label(st: ProgV, lbl: Seq<char>) -> ProgV {
    ProgV {
        labels: st.labels.insert(lbl, st.addr),
        ic: st.ic.insert(st.addr, st.instrs.len() as usize),
        ..st
    }
}

/// What emitting an instruction does: it is appended and the address
/// advances by two.
pub open spec fn spec_emit(st: ProgV, r: RInstrV) -> ProgV {
    ProgV { instrs: st.instrs.push(r), addr: sat_addr(st.addr + 2), ..st }
}

/// The outcome of one line: carry on with the state, stop assembly, or
/// fail.
pub enum LineOutV {
    Next(ProgV),
    Stop(ProgV),
    Fail(AsmErrorV),
}

/// What the instruction's argument token makes of the line, as the dialect
/// table directs.
pub open spec fn spec_instr_of(
    d: DialectV,
    line: Seq<char>,
    ins: Seq<char>,
    tok: TokenV,
    st: ProgV,
) -> LineOutV {
    match tok {
        TokenV::Id(lbl) => match find_form(d.ops, ins) {
            Option::Some(ArgForm::LabelIc) => LineOutV::Next(
                spec_emit(st, RInstrV::Branch(ins, lbl, 0)),
            ),
            Option::Some(ArgForm::LabelMem) => LineOutV::Next(
                spec_emit(st, RInstrV::MemRef(ins, lbl, 0)),
            ),
            _ => LineOutV::Fail(AsmErrorV::InvalidInstruction(line)),
        },
        TokenV::Num(m) => if ins == "BLK"@ {
            if !d.accept_blk {
                LineOutV::Fail(AsmErrorV::BlkNotAccepted)
            } else if !(m >= 0 && m % 1000000 == 0) {
                LineOutV::Fail(AsmErrorV::InvalidBlk)
            } else {
                let u = if m / 1000000 > u32::MAX {
                    u32::MAX as int
                } else {
                    m / 1000000
                };
                LineOutV::Next(ProgV { addr: sat_addr(st.addr + u), ..st })
            }
        } else {
            match find_form(d.ops, ins) {
                Option::Some(ArgForm::Num) => LineOutV::Next(spec_emit(st, RInstrV::Num(ins, m))),
                _ => LineOutV::Fail(AsmErrorV::InvalidInstruction(line)),
            }
        },
        TokenV::Str(s) => match find_form(d.ops, ins) {
            Option::Some(ArgForm::Str) => LineOutV::Next(spec_emit(st, RInstrV::Str(ins, s))),
            _ => LineOutV::Fail(AsmErrorV::InvalidInstruction(line)),
        },
        TokenV::Symbol(s) => if s != "#"@ {
            LineOutV::Fail(AsmErrorV::InvalidLine(line))
        } else {
            spec_noarg_of(d, line, ins, st)
        },
        TokenV::End => spec_noarg_of(d, line, ins, st),
        TokenV::WS => LineOutV::Fail(AsmErrorV::Unexpected(TokenV::WS)),
    }
}

/// An instruction line without an argument: `END` stops assembly, anything
/// else must be a nullary mnemonic of the dialect.
pub open spec fn spec_noarg_of(d: DialectV, line: Seq<char>, ins: Seq<char>, st: ProgV) -> LineOutV {
    if ins == "END"@ {
        LineOutV::Stop(st)
    } else {
        match find_form(d.ops, ins) {
            Option::Some(ArgForm::NoArg) => LineOutV::Next(spec_emit(st, RInstrV::NoArg(ins))),
            _ => LineOutV::Fail(AsmErrorV::InvalidInstruction(line)),
        }
    }
}

/// The comment symbol is the one symbol assembly lines know.
pub open spec fn hash_syms() -> Seq<Seq<char>> {
    seq!["#"@]
}

/// What an instruction line does: the mnemonic, then at most one argument
/// token, a single whitespace token between them skipped.
pub open spec fn spec_add_instr(d: DialectV, line: Seq<char>, p: int, st: ProgV) -> LineOutV
    recommends
        0 <= p <= line.len(),
{
    match next_token_spec(line, p, hash_syms()) {
        LexStep::Fail(e, _) => LineOutV::Fail(AsmErrorV::Lex(e)),
        LexStep::Tok(t, p2) => match t {
            TokenV::End => LineOutV::Stop(st),
            TokenV::Symbol(s) => if s == "#"@ {
                LineOutV::Next(st)
            } else {
                LineOutV::Fail(AsmErrorV::Unexpected(TokenV::Symbol(s)))
            },
            TokenV::Id(ins) => match next_token_spec(line, p2, hash_syms()) {
                LexStep::Fail(e, _) => LineOutV::Fail(AsmErrorV::Lex(e)),
                LexStep::Tok(t3, p3) => match t3 {
                    TokenV::WS => match next_token_spec(line, p3, hash_syms()) {
                        LexStep::Fail(e, _) => LineOutV::Fail(AsmErrorV::Lex(e)),
                        LexStep::Tok(t4, _) => spec_instr_of(d, line, ins, t4, st),
                    },
                    _ => spec_instr_of(d, line, ins, t3, st),
                },
            },
            other => LineOutV::Fail(AsmErrorV::Unexpected(other)),
        },
    }
}

/// What one raw line does: trailing whitespace dropped, blank lines and
/// comment lines pass, a name declares a label, an indented line holds an
/// instruction.
pub open spec fn spec_line(d: DialectV, raw: Seq<char>, st: ProgV) -> LineOutV {
    let line = raw.take(trim_end_len(raw));
    if line.len() == 0 {
        LineOutV::Next(st)
    } else {
        match next_token_spec(line, 0, hash_syms()) {
            LexStep::Fail(e, _) => LineOutV::Fail(AsmErrorV::Lex(e)),
            LexStep::Tok(t, p1) => match t {
                TokenV::Id(lbl) => LineOutV::Next(spec_add_label(st, lbl)),
                TokenV::WS => spec_add_instr(d, line, p1, st),
                TokenV::Symbol(s) => if s == "#"@ {
                    LineOutV::Next(st)
                } else {
                    LineOutV::Fail(AsmErrorV::Unexpected(TokenV::Symbol(s)))
                },
                other => LineOutV::Fail(AsmErrorV::Unexpected(other)),
            },
        }
    }
}

/// The text split at newlines, from position `i` on.
pub open spec fn spec_lines_from(text: Seq<char>, i: int) -> Seq<Seq<char>>
    decreases text.len() - i,
    when 0 <= i <= text.len()
    via spec_lines_from_dec
{
    if i >= text.len() {
        Seq::empty()
    } else {
        let k = find_nl(text, i);
        if k == text.len() {
            seq![text.subrange(i, k)]
        } else {
            seq![text.subrange(i, k)] + spec_lines_from(text, k + 1)
        }
    }
}

#[via_fn]
proof fn spec_lines_from_dec(text: Seq<char>, i: int) {
    if 0 <= i < text.len() {
        crate::text::lemma_find_nl(text, i);
    }
}

/// The line-by-line fold over the program text.
pub open spec fn spec_parse_lines(d: DialectV, ls: Seq<Seq<char>>, st: ProgV) -> Result<
    ProgV,
    AsmErrorV,
>
    decreases ls.len(),
{
    if ls.len() == 0 {
        Result::Ok(st)
    } else {
        match spec_line(d, ls[0], st) {
            LineOutV::Next(st2) => spec_parse_lines(d, ls.subrange(1, ls.len() as int), st2),
            LineOutV::Stop(st2) => Result::Ok(st2),
            LineOutV::Fail(e) => Result::Err(e),
        }
    }
}

/// How one instruction resolves: a branch label goes through the label map
/// and then the address map to an instruction index that must exist; a
/// memory label goes through the label map alone.
pub open spec fn spec_resolve_instr(
    r: RInstrV,
    labels: Map<Seq<char>, u32>,
    ic: Map<u32, usize>,
    pgm_len: int,
) -> Result<RInstrV, AsmErrorV> {
    match r {
        RInstrV::Branch(ins, lbl, _) => if !labels.contains_key(lbl) {
            Result::Err(AsmErrorV::UnknownLabel(lbl))
        } else {
            let a = labels[lbl];
            if !ic.contains_key(a) {
                Result::Err(AsmErrorV::UnmatchedAddr(a as int))
            } else {
                let i = ic[a];
                if i >= pgm_len {
                    Result::Err(AsmErrorV::DanglingIc(i as int, lbl))
                } else {
                    Result::Ok(RInstrV::Branch(ins, lbl, i as int))
                }
            }
        },
        RInstrV::MemRef(ins, lbl, _) => if !labels.contains_key(lbl) {
            Result::Err(AsmErrorV::UnknownLabel(lbl))
        } else {
            Result::Ok(RInstrV::MemRef(ins, lbl, labels[lbl] as int))
        },
        other => Result::Ok(other),
    }
}

/// The resolution pass over the instructions, from index `i` on.
pub open spec fn spec_resolve_from(
    instrs: Seq<RInstrV>,
    labels: Map<Seq<char>, u32>,
    ic: Map<u32, usize>,
    pgm_len: int,
    i: int,
) -> Result<Seq<RInstrV>, AsmErrorV>
    recommends
        0 <= i <= instrs.len(),
    decreases instrs.len() - i,
{
    if i >= instrs.len() {
        Result::Ok(Seq::empty())
    } else {
        match spec_resolve_instr(instrs[i], labels, ic, pgm_len) {
            Result::Err(e) => Result::Err(e),
            Result::Ok(r) => match spec_resolve_from(instrs, labels, ic, pgm_len, i + 1) {
                Result::Err(e) => Result::Err(e),
                Result::Ok(tail) => Result::Ok(seq![r] + tail),
            },
        }
    }
}

/// What assembling a text yields: the line fold, then the resolution pass.
pub open spec fn spec_parse(d: DialectV, text: Seq<char>) -> Result<ProgV, AsmErrorV> {
    match spec_parse_lines(d, spec_lines_from(text, 0), empty_prog()) {
        Result::Err(e) => Result::Err(e),
        Result::Ok(st) => match spec_resolve_from(
            st.instrs,
            st.labels,
            st.ic,
            st.instrs.len() as int,
            0,
        ) {
            Result::Err(e) => Result::Err(e),
            Result::Ok(rs) => Result::Ok(ProgV { instrs: rs, ..st }),
        },
    }
}

/// Address arithmetic, saturating at the top of the address space.
fn bump_addr(a: u32, n: u32) -> (r: u32)
    ensures
        r == sat_addr(a as int + n as int),
{
    if a > u32::MAX - n {
        u32::MAX
    } else {
        a + n
    }
}

impl RInstr {
    /// A copy of this instruction.
    pub fn duplicate(&self) -> (r: RInstr)
        ensures
            r@ == self@,
    {
        match self {
            RInstr::NoArg(m) => RInstr::NoArg(m.clone()),
            RInstr::Branch(m, l, t) => RInstr::Branch(m.clone(), l.clone(), *t),
            RInstr::MemRef(m, l, a) => RInstr::MemRef(m.clone(), l.clone(), *a),
            RInstr::Num(m, v) => RInstr::Num(m.clone(), *v),
            RInstr::Str(m, s) => RInstr::Str(m.clone(), s.clone()),
        }
    }
}

impl MProgram {
    /// The empty program.
    pub fn new() -> (r: MProgram)
        ensures
            r@ == empty_prog(),
    {
        let r = MProgram {
            instrs: Vec::new(),
            labels: LabelMap::new(),
            ic: AddrMap::new(),
            addr: 0,
        };
        proof {
            assert(instr_views(r.instrs@) =~= Seq::<RInstrV>::empty());
            assert(r@ =~= empty_prog());
        }
        r
    }

    /// Declares a label at the current address.
    fn add_label(&mut self, label: &str)
        ensures
            final(self)@ == spec_add_label(old(self)@, label@),
    {
        let n = self.instrs.len();
        self.labels.insert(String::from_str(label), self.addr);
        self.ic.insert(self.addr, n);
        proof {
            assert(final(self)@ =~= spec_add_label(old(self)@, label@));
        }
    }

    /// Appends one instruction and advances the address by two.
    fn emit(&mut self, r: RInstr)
        ensures
            final(self)@ == spec_emit(old(self)@, r@),
    {
        self.addr = bump_addr(self.addr, 2);
        self.instrs.push(r);
        proof {
            assert(instr_views(self.instrs@) =~= instr_views(old(self).instrs@).push(r@));
            assert(final(self)@ =~= spec_emit(old(self)@, r@));
        }
    }

    /// Reads one instruction line from the scanner, as `spec_add_instr`
    /// describes; `Ok(true)` means `END` stopped assembly.
    fn add_instr(&mut self, lx: &mut Lexer, line: &str, d: &Dialect) -> (r: Result<bool, AsmError>)
        requires
            old(lx).wf(),
            old(lx).text@ == line@,
            old(lx).syms_view() =~= hash_syms(),
        ensures
            (match spec_add_instr(d@, line@, old(lx).pos as int, old(self)@) {
                LineOutV::Next(st2) => r matches Ok(b) && b == false && final(self)@ == st2,
                LineOutV::Stop(st2) => r matches Ok(b) && b == true && final(self)@ == st2,
                LineOutV::Fail(e) => r matches Err(x) && x@ == e && final(self)@ == old(self)@,
            }),
    {
        let ins: String = match lx.next_token() {
            Err(e) => {
                return Err(AsmError::Lex(e));
            },
            Ok(Token::End) => {
                return Ok(true);
            },
            Ok(Token::Symbol(s)) => {
                if str_eq(s.as_str(), "#") {
                    return Ok(false);
                } else {
                    return Err(AsmError::Unexpected(Token::Symbol(s)));
                }
            },
            Ok(Token::Id(i)) => i,
            Ok(other) => {
                return Err(AsmError::Unexpected(other));
            },
        };
        let mut tok = match lx.next_token() {
            Err(e) => {
                return Err(AsmError::Lex(e));
            },
            Ok(t) => t,
        };
        if matches!(tok, Token::WS) {
            tok = match lx.next_token() {
                Err(e) => {
                    return Err(AsmError::Lex(e));
                },
                Ok(t) => t,
            };
        }
        match tok {
            Token::WS => Err(AsmError::Unexpected(Token::WS)),
            Token::Id(label) => match d.form_of(ins.as_str()) {
                Option::Some(ArgForm::LabelIc) => {
                    self.emit(RInstr::Branch(ins, label, 0));
                    Ok(false)
                },
                Option::Some(ArgForm::LabelMem) => {
                    self.emit(RInstr::MemRef(ins, label, 0));
                    Ok(false)
                },
                _ => Err(AsmError::InvalidInstruction(String::from_str(line))),
            },
            Token::Num(v) => {
                if str_eq(ins.as_str(), "BLK") {
                    if !d.accept_blk {
                        Err(AsmError::BlkNotAccepted)
                    } else if !v.is_whole_nonneg() {
                        Err(AsmError::InvalidBlk)
                    } else {
                        let u = v.units_u32();
                        self.addr = bump_addr(self.addr, u);
                        proof {
                            assert(final(self)@ =~= (ProgV {
                                addr: sat_addr(
                                    old(self)@.addr + (if v@ / 1000000 > u32::MAX {
                                        u32::MAX as int
                                    } else {
                                        v@ / 1000000
                                    }),
                                ),
                                ..old(self)@
                            }));
                        }
                        Ok(false)
                    }
                } else {
                    match d.form_of(ins.as_str()) {
                        Option::Some(ArgForm::Num) => {
                            self.emit(RInstr::Num(ins, v));
                            Ok(false)
                        },
                        _ => Err(AsmError::InvalidInstruction(String::from_str(line))),
                    }
                }
            },
            Token::Str(s) => match d.form_of(ins.as_str()) {
                Option::Some(ArgForm::Str) => {
                    self.emit(RInstr::Str(ins, s));
                    Ok(false)
                },
                _ => Err(AsmError::InvalidInstruction(String::from_str(line))),
            },
            Token::Symbol(s) => {
                if !str_eq(s.as_str(), "#") {
                    Err(AsmError::InvalidLine(String::from_str(line)))
                } else {
                    self.noarg(ins, line, d)
                }
            },
            Token::End => self.noarg(ins, line, d),
        }
    }

    /// An instruction line without an argument.
    fn noarg(&mut self, ins: String, line: &str, d: &Dialect) -> (r: Result<bool, AsmError>)
        ensures
            (match spec_noarg_of(d@, line@, ins@, old(self)@) {
                LineOutV::Next(st2) => r matches Ok(b) && b == false && final(self)@ == st2,
                LineOutV::Stop(st2) => r matches Ok(b) && b == true && final(self)@ == st2,
                LineOutV::Fail(e) => r matches Err(x) && x@ == e && final(self)@ == old(self)@,
            }),
    {
        if str_eq(ins.as_str(), "END") {
            return Ok(true);
        }
        match d.form_of(ins.as_str()) {
            Option::Some(ArgForm::NoArg) => {
                self.emit(RInstr::NoArg(ins));
                Ok(false)
            },
            _ => Err(AsmError::InvalidInstruction(String::from_str(line))),
        }
    }

    /// The resolution pass: every label-bearing instruction is rewritten
    /// with its concrete target, or the first failure is reported.
    fn resolve(&mut self) -> (r: Result<(), AsmError>)
        ensures
            (match spec_resolve_from(
                old(self)@.instrs,
                old(self)@.labels,
                old(self)@.ic,
                old(self)@.instrs.len() as int,
                0,
            ) {
                Result::Ok(rs) => r matches Ok(u) && final(self)@ == (ProgV {
                    instrs: rs,
                    ..old(self)@
                }),
                Result::Err(e) => r matches Err(x) && x@ == e,
            }),
    {
        let len = self.instrs.len();
        let mut out: Vec<RInstr> = Vec::new();
        let mut i: usize = 0;
        proof {
            let full = spec_resolve_from(
                self@.instrs,
                self@.labels,
                self@.ic,
                len as int,
                0,
            );
            match full {
                Result::Ok(t) => {
                    assert(instr_views(out@) + t =~= t);
                },
                Result::Err(_) => {},
            }
        }
        while i < len
            invariant
                0 <= i <= len,
                len == self.instrs@.len(),
                self == old(self),
                out@.len() == i,
                (spec_resolve_from(self@.instrs, self@.labels, self@.ic, len as int, 0) == (
                match spec_resolve_from(self@.instrs, self@.labels, self@.ic, len as int, i as int) {
                    Result::Ok(tail) => Result::<Seq<RInstrV>, AsmErrorV>::Ok(
                        instr_views(out@) + tail,
                    ),
                    Result::Err(e) => Result::<Seq<RInstrV>, AsmErrorV>::Err(e),
                })),
            decreases len - i,
        {
            let resolved: RInstr = match &self.instrs[i] {
                RInstr::Branch(ins, lbl, _) => {
                    let a = match self.labels.get(lbl.as_str()) {
                        Option::Some(a) => a,
                        Option::None => {
                            return Err(AsmError::UnknownLabel(lbl.clone()));
                        },
                    };
                    let ix = match self.ic.get(a) {
                        Option::Some(ix) => ix,
                        Option::None => {
                            return Err(AsmError::UnmatchedAddr(a));
                        },
                    };
                    if ix >= len {
                        return Err(AsmError::DanglingIc(ix, lbl.clone()));
                    }
                    RInstr::Branch(ins.clone(), lbl.clone(), ix)
                },
                RInstr::MemRef(ins, lbl, _) => {
                    let a = match self.labels.get(lbl.as_str()) {
                        Option::Some(a) => a,
                        Option::None => {
                            return Err(AsmError::UnknownLabel(lbl.clone()));
                        },
                    };
                    RInstr::MemRef(ins.clone(), lbl.clone(), a)
                },
                other => other.duplicate(),
            };
            proof {
                let tail_i = spec_resolve_from(
                    self@.instrs,
                    self@.labels,
                    self@.ic,
                    len as int,
                    i as int,
                );
                let tail_n = spec_resolve_from(
                    self@.instrs,
                    self@.labels,
                    self@.ic,
                    len as int,
                    i + 1,
                );
                assert(spec_resolve_instr(self@.instrs[i as int], self@.labels, self@.ic, len as int)
                    == Result::<RInstrV, AsmErrorV>::Ok(resolved@));
                match tail_n {
                    Result::Ok(t) => {
                        assert(instr_views(out@.push(resolved)) + t =~= instr_views(out@) + (seq![
                            resolved@,
                        ] + t));
                    },
                    Result::Err(_) => {},
                }
            }
            out.push(resolved);
            i = i + 1;
        }
        proof {
            assert(spec_resolve_from(self@.instrs, self@.labels, self@.ic, len as int, len as int)
                == Result::<Seq<RInstrV>, AsmErrorV>::Ok(Seq::empty()));
            assert(instr_views(out@) + Seq::<RInstrV>::empty() =~= instr_views(out@));
        }
        self.instrs = out;
        proof {
            match spec_resolve_from(
                old(self)@.instrs,
                old(self)@.labels,
                old(self)@.ic,
                len as int,
                0,
            ) {
                Result::Ok(rs) => {
                    assert(final(self)@ =~= (ProgV { instrs: rs, ..old(self)@ }));
                },
                Result::Err(_) => {},
            }
        }
        Ok(())
    }
}

/// Assembles a textual program against a dialect: the line-by-line pass,
/// then label resolution, exactly as `spec_parse` describes.
pub fn parse(d: &Dialect, pgm: &str) -> (r: Result<MProgram, AsmError>)
    ensures
        (match spec_parse(d@, pgm@) {
            Result::Ok(pv) => r matches Ok(p) && p@ == pv,
            Result::Err(ev) => r matches Err(e) && e@ == ev,
        }),
{
    let mut p = MProgram::new();
    let n: usize = pgm.unicode_len();
    let mut start: usize = 0;
    proof {
        crate::text::lemma_find_nl(pgm@, 0);
    }
    while start < n
        invariant
            0 <= start <= n,
            n == pgm@.len(),
            (spec_parse_lines(d@, spec_lines_from(pgm@, 0), empty_prog()) == spec_parse_lines(
                d@,
                spec_lines_from(pgm@, start as int),
                p@,
            )),
        decreases n - start,
    {
        let k = find_nl_from(pgm, start);
        let raw = copy_range(pgm, start, k);
        let next: usize = if k < n {
            k + 1
        } else {
            n
        };
        let ghost ls_here = spec_lines_from(pgm@, start as int);
        proof {
            assert(ls_here[0] == raw@);
            if k < n {
                assert(ls_here.subrange(1, ls_here.len() as int) =~= spec_lines_from(
                    pgm@,
                    next as int,
                ));
            } else {
                assert(ls_here =~= seq![raw@]);
                assert(ls_here.subrange(1, ls_here.len() as int) =~= spec_lines_from(
                    pgm@,
                    next as int,
                ));
            }
        }
        let trimmed = trimmed_end(raw.as_str());
        let tn: usize = trimmed.as_str().unicode_len();
        if tn == 0 {
            start = next;
            continue;
        }
        let mut lx = Lexer::new(trimmed.as_str(), &["#"]);
        proof {
            assert(lx.syms_view() =~= hash_syms());
        }
        let t = match lx.next_token() {
            Err(e) => {
                return Err(AsmError::Lex(e));
            },
            Ok(t) => t,
        };
        match t {
            Token::Id(lbl) => {
                p.add_label(lbl.as_str());
            },
            Token::WS => {
                let stopped = match p.add_instr(&mut lx, trimmed.as_str(), d) {
                    Err(e) => {
                        return Err(e);
                    },
                    Ok(b) => b,
                };
                if stopped {
                    match p.resolve() {
                        Err(e) => {
                            return Err(e);
                        },
                        Ok(u) => {
                            return Ok(p);
                        },
                    }
                }
            },
            Token::Symbol(s) => {
                if !str_eq(s.as_str(), "#") {
                    return Err(AsmError::Unexpected(Token::Symbol(s)));
                }
            },
            other => {
                return Err(AsmError::Unexpected(other));
            },
        }
        start = next;
    }
    proof {
        assert(spec_lines_from(pgm@, n as int) =~= Seq::<Seq<char>>::empty());
    }
    match p.resolve() {
        Err(e) => Err(e),
        Ok(u) => Ok(p),
    }
}

} // verus!
