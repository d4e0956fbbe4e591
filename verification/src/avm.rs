//! The arithmetic virtual machine the translated programs target: a stack
//! machine over fixed-point values with a sparse memory and a 100-column
//! print area. Printed lines are collected in a buffer a caller writes out.

use vstd::prelude::*;
use crate::maps::{LabelMap, AddrMap};
use crate::value::{Value, clip, mul_fixed, round_half_away, scale};
use crate::text::{trim_end_len, trimmed_end, copy_range, str_eq};
use crate::assembler::{Dialect, OpDesc, ArgForm, RInstr, RInstrV, AsmError, AsmErrorV, DialectV};

verus! {

/// One AVM instruction. Branch arms carry a resolved instruction index,
/// memory arms a resolved address; both keep the label they were written
/// with.
#[derive(Debug)]
pub enum MInstr {
    B(String, usize),
    BFP(String, usize),
    BTP(String, usize),
    LDL(Value),
    ST(String, u32),
    LD(String, u32),
    EQU,
    ADD,
    MLT,
    SUB,
    EDT(String),
    PNT,
    HLT,
    Undef,
}

/// The view of an instruction.
pub enum MInstrV {
    B(Seq<char>, int),
    BFP(Seq<char>, int),
    BTP(Seq<char>, int),
    LDL(int),
    ST(Seq<char>, u32),
    LD(Seq<char>, u32),
    EQU,
    ADD,
    MLT,
    SUB,
    EDT(Seq<char>),
    PNT,
    HLT,
    Undef,
}

impl View for MInstr {
    type V = MInstrV;

    open spec fn view(&self) -> MInstrV {
        match self {
            MInstr::B(l, t) => MInstrV::B(l@, *t as int),
            MInstr::BFP(l, t) => MInstrV::BFP(l@, *t as int),
            MInstr::BTP(l, t) => MInstrV::BTP(l@, *t as int),
            MInstr::LDL(v) => MInstrV::LDL(v@),
            MInstr::ST(l, a) => MInstrV::ST(l@, *a),
            MInstr::LD(l, a) => MInstrV::LD(l@, *a),
            MInstr::EQU => MInstrV::EQU,
            MInstr::ADD => MInstrV::ADD,
            MInstr::MLT => MInstrV::MLT,
            MInstr::SUB => MInstrV::SUB,
            MInstr::EDT(s) => MInstrV::EDT(s@),
            MInstr::PNT => MInstrV::PNT,
            MInstr::HLT => MInstrV::HLT,
            MInstr::Undef => MInstrV::Undef,
        }
    }
}

/// The machine state, mathematically: memory as a map to micro-unit counts,
/// the value stack, the print area, and the lines printed so far.
#[verifier::ext_equal]
pub struct AView {
    pub mem: Map<u32, int>,
    pub stack: Seq<int>,
    pub print_area: Seq<char>,
    pub printed: Seq<char>,
}

/// The values a stack of machine words denotes.
pub open spec fn stack_view(v: Seq<Value>) -> Seq<int> {
    Seq::new(v.len(), |i: int| v[i]@)
}

/// The counts a machine memory denotes.
pub open spec fn mem_view(m: Map<u32, Value>) -> Map<u32, int> {
    Map::new(|k: u32| m.contains_key(k), |k: u32| m[k]@)
}

/// The arithmetic machine.
#[derive(Debug)]
pub struct M {
    pub mem: AddrMap<Value>,
    pub stack: Vec<Value>,
    pub print_area: String,
    pub printed: String,
}

impl View for M {
    type V = AView;

    open spec fn view(&self) -> AView {
        AView {
            mem: mem_view(self.mem@),
            stack: stack_view(self.stack@),
            print_area: self.print_area@,
            printed: self.printed@,
        }
    }
}

/// A hundred spaces: the print area as `EDT` first finds it.
pub open spec fn spaces100() -> Seq<char> {
    Seq::new(100, |i: int| ' ')
}

/// What `EDT s` does to the print area: with the popped value rounded to
/// `n`, a write that starts before column 0 or ends past column 100 leaves
/// the area alone; otherwise the area, first filled with spaces if it was
/// empty, holds `s` at columns `n` on.
pub open spec fn spec_edt_area(area: Seq<char>, n: int, s: Seq<char>) -> Seq<char>
    recommends
        area.len() == 0 || area.len() == 100,
{
    if n < 0 || n + s.len() > 100 {
        area
    } else {
        let base = if area.len() == 0 {
            spaces100()
        } else {
            area
        };
        base.subrange(0, n) + s + base.subrange(n + s.len(), 100)
    }
}

impl M {
    /// The print area is untouched or exactly one hundred columns.
    pub open spec fn wf(&self) -> bool {
        self.print_area@.len() == 0 || self.print_area@.len() == 100
    }

    /// A fresh machine: empty memory, empty stack, untouched print area.
    pub fn new() -> (r: M)
        ensures
            r@.mem == Map::<u32, int>::empty(),
            r@.stack == Seq::<int>::empty(),
            r@.print_area == Seq::<char>::empty(),
            r@.printed == Seq::<char>::empty(),
            r.wf(),
    {
        let r = M {
            mem: AddrMap::new(),
            stack: Vec::new(),
            print_area: String::new(),
            printed: String::new(),
        };
        proof {
            assert(r@.mem =~= Map::<u32, int>::empty());
            assert(r@.stack =~= Seq::<int>::empty());
        }
        r
    }

    /// Pushes a value.
    pub fn push(&mut self, u: Value)
        ensures
            final(self)@ == (AView { stack: old(self)@.stack.push(u@), ..old(self)@ }),
            final(self).wf() == old(self).wf(),
    {
        self.stack.push(u);
        proof {
            assert(stack_view(self.stack@) =~= stack_view(old(self).stack@).push(u@));
            assert(final(self)@ =~= (AView { stack: old(self)@.stack.push(u@), ..old(self)@ }));
        }
    }

    /// Pops the top value; popping an empty stack is a machine error the
    /// caller rules out.
    pub fn pop(&mut self) -> (r: Value)
        requires
            old(self)@.stack.len() > 0,
        ensures
            r@ == old(self)@.stack.last(),
            final(self)@ == (AView {
                stack: old(self)@.stack.drop_last(),
                ..old(self)@
            }),
            final(self).wf() == old(self).wf(),
    {
        let r = match self.stack.pop() {
            Option::Some(v) => v,
            Option::None => {
                proof {
                    assert(false);
                }
                Value::zero()
            },
        };
        proof {
            assert(stack_view(self.stack@) =~= stack_view(old(self).stack@).drop_last());
            assert(final(self)@ =~= (AView {
                stack: old(self)@.stack.drop_last(),
                ..old(self)@
            }));
        }
        r
    }

    /// `LD addr`: pushes the cell's value, zero for a cell never written.
    pub fn ld(&mut self, loc: u32)
        ensures
            final(self)@ == (AView {
                stack: old(self)@.stack.push(
                    if old(self)@.mem.contains_key(loc) {
                        old(self)@.mem[loc]
                    } else {
                        0
                    },
                ),
                ..old(self)@
            }),
            final(self).wf() == old(self).wf(),
    {
        let v = match self.mem.get(loc) {
            Option::Some(v) => v,
            Option::None => Value::zero(),
        };
        self.push(v);
    }

    /// `ST addr`: pops the top value into the cell.
    pub fn st(&mut self, loc: u32)
        requires
            old(self)@.stack.len() > 0,
        ensures
            final(self)@ == (AView {
                mem: old(self)@.mem.insert(loc, old(self)@.stack.last()),
                stack: old(self)@.stack.drop_last(),
                ..old(self)@
            }),
            final(self).wf() == old(self).wf(),
    {
        let v = self.pop();
        self.mem.insert(loc, v);
        proof {
            assert(mem_view(self.mem@) =~= mem_view(old(self).mem@).insert(
                loc,
                old(self)@.stack.last(),
            ));
            assert(final(self)@ =~= (AView {
                mem: old(self)@.mem.insert(loc, old(self)@.stack.last()),
                stack: old(self)@.stack.drop_last(),
                ..old(self)@
            }));
        }
    }

    /// `ADD`: pops two values and pushes their sum.
    pub fn add(&mut self)
        requires
            old(self)@.stack.len() >= 2,
        ensures
            final(self)@ == (AView {
                stack: old(self)@.stack.drop_last().drop_last().push(
                    clip(old(self)@.stack.last() + old(self)@.stack[old(self)@.stack.len() - 2]),
                ),
                ..old(self)@
            }),
            final(self).wf() == old(self).wf(),
    {
        let a = self.pop();
        let b = self.pop();
        self.push(a.add(b));
    }

    /// `MLT`: pops two values and pushes their product.
    pub fn mlt(&mut self)
        requires
            old(self)@.stack.len() >= 2,
        ensures
            final(self)@ == (AView {
                stack: old(self)@.stack.drop_last().drop_last().push(
                    mul_fixed(
                        old(self)@.stack.last(),
                        old(self)@.stack[old(self)@.stack.len() - 2],
                    ),
                ),
                ..old(self)@
            }),
            final(self).wf() == old(self).wf(),
    {
        let a = self.pop();
        let b = self.pop();
        self.push(a.mul(b));
    }

    /// `SUB`: pops `a`, then `b`, and pushes `a - b`.
    pub fn sub(&mut self)
        requires
            old(self)@.stack.len() >= 2,
        ensures
            final(self)@ == (AView {
                stack: old(self)@.stack.drop_last().drop_last().push(
                    clip(old(self)@.stack.last() - old(self)@.stack[old(self)@.stack.len() - 2]),
                ),
                ..old(self)@
            }),
            final(self).wf() == old(self).wf(),
    {
        let a = self.pop();
        let b = self.pop();
        self.push(a.sub(b));
    }

    /// `EQU`: pops two values and pushes one when they lie within a
    /// millionth of each other, zero otherwise.
    pub fn equ(&mut self)
        requires
            old(self)@.stack.len() >= 2,
        ensures
            final(self)@ == (AView {
                stack: old(self)@.stack.drop_last().drop_last().push(
                    if old(self)@.stack.last() == old(self)@.stack[old(self)@.stack.len() - 2] {
                        scale()
                    } else {
                        0
                    },
                ),
                ..old(self)@
            }),
            final(self).wf() == old(self).wf(),
    {
        let a = self.pop();
        let b = self.pop();
        if a.close_to(b) {
            self.push(Value::one());
        } else {
            self.push(Value::zero());
        }
    }

    /// `EDT s`: pops the position and writes `s` into the print area, as
    /// `spec_edt_area` describes.
    pub fn edt(&mut self, s: &str)
        requires
            old(self)@.stack.len() > 0,
            old(self).wf(),
        ensures
            final(self)@ == (AView {
                stack: old(self)@.stack.drop_last(),
                print_area: spec_edt_area(
                    old(self)@.print_area,
                    round_half_away(old(self)@.stack.last()),
                    s@,
                ),
                ..old(self)@
            }),
            final(self).wf(),
    {
        let v = self.pop();
        let n = v.round_units();
        if n < 0 {
            proof {
                assert(final(self)@ =~= (AView {
                    stack: old(self)@.stack.drop_last(),
                    print_area: spec_edt_area(
                        old(self)@.print_area,
                        round_half_away(old(self)@.stack.last()),
                        s@,
                    ),
                    ..old(self)@
                }));
            }
            return;
        }
        let sz = s.unicode_len();
        if n > 100 || sz > 100 || (n as usize) + sz > 100 {
            proof {
                assert(final(self)@ =~= (AView {
                    stack: old(self)@.stack.drop_last(),
                    print_area: spec_edt_area(
                        old(self)@.print_area,
                        round_half_away(old(self)@.stack.last()),
                        s@,
                    ),
                    ..old(self)@
                }));
            }
            return;
        }
        let start = n as usize;
        if self.print_area.as_str().unicode_len() == 0 {
            proof {
                reveal_strlit(
                    "                                                                                                    ",
                );
                assert(
                    "                                                                                                    "@
                        =~= spaces100());
            }
            self.print_area = String::from_str(
                "                                                                                                    ",
            );
        }
        let mut area = copy_range(self.print_area.as_str(), 0, start);
        area.append(s);
        let tail = copy_range(self.print_area.as_str(), start + sz, 100);
        area.append(tail.as_str());
        self.print_area = area;
        proof {
            assert(final(self)@.print_area =~= spec_edt_area(
                old(self)@.print_area,
                round_half_away(old(self)@.stack.last()),
                s@,
            ));
            assert(final(self)@ =~= (AView {
                stack: old(self)@.stack.drop_last(),
                print_area: spec_edt_area(
                    old(self)@.print_area,
                    round_half_away(old(self)@.stack.last()),
                    s@,
                ),
                ..old(self)@
            }));
        }
    }

    /// `PNT`: appends the right-trimmed print area and a newline to the
    /// printed lines, and resets the area.
    pub fn pnt(&mut self)
        ensures
            final(self)@ == (AView {
                print_area: Seq::empty(),
                printed: old(self)@.printed + old(self)@.print_area.take(
                    trim_end_len(old(self)@.print_area),
                ) + seq!['\n'],
                ..old(self)@
            }),
            final(self).wf(),
    {
        proof {
            reveal_strlit("\n");
            assert("\n"@ =~= seq!['\n']);
        }
        let t = trimmed_end(self.print_area.as_str());
        self.printed.append(t.as_str());
        self.printed.append("\n");
        self.print_area = String::new();
        proof {
            assert(final(self)@ =~= (AView {
                print_area: Seq::empty(),
                printed: old(self)@.printed + old(self)@.print_area.take(
                    trim_end_len(old(self)@.print_area),
                ) + seq!['\n'],
                ..old(self)@
            }));
        }
    }
}

/// How a run stands: still going, halted, or trapped on a malformed
/// program.
pub enum AStatus {
    Running,
    Halted,
    Trapped,
}

/// A machine together with its instruction pointer and status.
#[verifier::ext_equal]
pub struct AExecV {
    pub m: AView,
    pub ic: int,
    pub status: AStatus,
}

/// One step of the machine. A fetch out of bounds, an undefined
/// instruction, or a pop from an empty stack traps.
pub open spec fn step(pgm: Seq<MInstrV>, s: AExecV) -> AExecV {
    if !(s.status matches AStatus::Running) {
        s
    } else if !(0 <= s.ic < pgm.len()) {
        AExecV { status: AStatus::Trapped, ..s }
    } else {
        match pgm[s.ic] {
            MInstrV::Undef => AExecV { status: AStatus::Trapped, ..s },
            MInstrV::LDL(v) => AExecV {
                m: AView { stack: s.m.stack.push(v), ..s.m },
                ic: s.ic + 1,
                ..s
            },
            MInstrV::LD(_, loc) => AExecV {
                m: AView {
                    stack: s.m.stack.push(
                        if s.m.mem.contains_key(loc) {
                            s.m.mem[loc]
                        } else {
                            0
                        },
                    ),
                    ..s.m
                },
                ic: s.ic + 1,
                ..s
            },
            MInstrV::ST(_, loc) => if s.m.stack.len() == 0 {
                AExecV { status: AStatus::Trapped, ..s }
            } else {
                AExecV {
                    m: AView {
                        mem: s.m.mem.insert(loc, s.m.stack.last()),
                        stack: s.m.stack.drop_last(),
                        ..s.m
                    },
                    ic: s.ic + 1,
                    ..s
                }
            },
            MInstrV::B(_, t) => AExecV { ic: t, ..s },
            MInstrV::BFP(_, t) => if s.m.stack.len() == 0 {
                AExecV { status: AStatus::Trapped, ..s }
            } else {
                AExecV {
                    m: AView { stack: s.m.stack.drop_last(), ..s.m },
                    ic: if s.m.stack.last() == 0 {
                        t
                    } else {
                        s.ic + 1
                    },
                    ..s
                }
            },
            MInstrV::BTP(_, t) => if s.m.stack.len() == 0 {
                AExecV { status: AStatus::Trapped, ..s }
            } else {
                AExecV {
                    m: AView { stack: s.m.stack.drop_last(), ..s.m },
                    ic: if s.m.stack.last() != 0 {
                        t
                    } else {
                        s.ic + 1
                    },
                    ..s
                }
            },
            MInstrV::ADD => if s.m.stack.len() < 2 {
                AExecV { status: AStatus::Trapped, ..s }
            } else {
                AExecV {
                    m: AView {
                        stack: s.m.stack.drop_last().drop_last().push(
                            clip(s.m.stack.last() + s.m.stack[s.m.stack.len() - 2]),
                        ),
                        ..s.m
                    },
                    ic: s.ic + 1,
                    ..s
                }
            },
            MInstrV::SUB => if s.m.stack.len() < 2 {
                AExecV { status: AStatus::Trapped, ..s }
            } else {
                AExecV {
                    m: AView {
                        stack: s.m.stack.drop_last().drop_last().push(
                            clip(s.m.stack.last() - s.m.stack[s.m.stack.len() - 2]),
                        ),
                        ..s.m
                    },
                    ic: s.ic + 1,
                    ..s
                }
            },
            MInstrV::MLT => if s.m.stack.len() < 2 {
                AExecV { status: AStatus::Trapped, ..s }
            } else {
                AExecV {
                    m: AView {
                        stack: s.m.stack.drop_last().drop_last().push(
                            mul_fixed(s.m.stack.last(), s.m.stack[s.m.stack.len() - 2]),
                        ),
                        ..s.m
                    },
                    ic: s.ic + 1,
                    ..s
                }
            },
            MInstrV::EQU => if s.m.stack.len() < 2 {
                AExecV { status: AStatus::Trapped, ..s }
            } else {
                AExecV {
                    m: AView {
                        stack: s.m.stack.drop_last().drop_last().push(
                            if s.m.stack.last() == s.m.stack[s.m.stack.len() - 2] {
                                scale()
                            } else {
                                0
                            },
                        ),
                        ..s.m
                    },
                    ic: s.ic + 1,
                    ..s
                }
            },
            MInstrV::EDT(t) => if s.m.stack.len() == 0 {
                AExecV { status: AStatus::Trapped, ..s }
            } else {
                AExecV {
                    m: AView {
                        stack: s.m.stack.drop_last(),
                        print_area: spec_edt_area(
                            s.m.print_area,
                            round_half_away(s.m.stack.last()),
                            t,
                        ),
                        ..s.m
                    },
                    ic: s.ic + 1,
                    ..s
                }
            },
            MInstrV::PNT => AExecV {
                m: AView {
                    print_area: Seq::empty(),
                    printed: s.m.printed + s.m.print_area.take(trim_end_len(s.m.print_area))
                        + seq!['\n'],
                    ..s.m
                },
                ic: s.ic + 1,
                ..s
            },
            MInstrV::HLT => AExecV { status: AStatus::Halted, ..s },
        }
    }
}

/// The machine after `n` steps.
pub open spec fn run(pgm: Seq<MInstrV>, s: AExecV, n: nat) -> AExecV
    decreases n,
{
    if n == 0 {
        s
    } else {
        step(pgm, run(pgm, s, (n - 1) as nat))
    }
}

/// Execution begins at instruction index 0.
pub open spec fn init_exec(m: AView) -> AExecV {
    AExecV { m, ic: 0, status: AStatus::Running }
}

/// A finished or trapped machine stays as it is.
pub proof fn lemma_run_absorb(pgm: Seq<MInstrV>, s: AExecV, i: nat, n: nat)
    requires
        i <= n,
        !(run(pgm, s, i).status matches AStatus::Running),
    ensures
        run(pgm, s, n) == run(pgm, s, i),
    decreases n,
{
    if n > i {
        lemma_run_absorb(pgm, s, i, (n - 1) as nat);
    }
}

/// A loaded AVM program.
#[derive(Debug)]
pub struct MProgram {
    pub instrs: Vec<MInstr>,
    pub labels: LabelMap,
    pub ic: AddrMap<usize>,
}

/// The view of a loaded program.
#[verifier::ext_equal]
pub struct AProgV {
    pub instrs: Seq<MInstrV>,
    pub labels: Map<Seq<char>, u32>,
    pub ic: Map<u32, usize>,
}

/// The views of a vector of instructions.
pub open spec fn ainstr_views(v: Seq<MInstr>) -> Seq<MInstrV> {
    Seq::new(v.len(), |i: int| v[i]@)
}

impl View for MProgram {
    type V = AProgV;

    open spec fn view(&self) -> AProgV {
        AProgV { instrs: ainstr_views(self.instrs@), labels: self.labels@, ic: self.ic@ }
    }
}

impl M {
    /// Runs the program for at most `fuel` steps from instruction index 0.
    /// The result says whether the run halted within the fuel; the machine
    /// ends exactly as `run` of the step relation describes. A program that
    /// would trap within the fuel — a fetch out of bounds, an undefined
    /// instruction, a pop from an empty stack — is ruled out by the caller.
    pub fn execute(&mut self, pgm: &MProgram, fuel: u64) -> (done: bool)
        requires
            old(self).wf(),
            forall|n: nat|
                n <= fuel ==> !((#[trigger] run(pgm@.instrs, init_exec(old(self)@), n)).status
                    matches AStatus::Trapped),
        ensures
            final(self)@ == run(pgm@.instrs, init_exec(old(self)@), fuel as nat).m,
            done == !(run(pgm@.instrs, init_exec(old(self)@), fuel as nat).status
                matches AStatus::Running),
            final(self).wf(),
    {
        let ghost pgmv = pgm@.instrs;
        let ghost init = init_exec(old(self)@);
        let mut ic: usize = 0;
        let mut steps: u64 = 0;
        loop
            invariant
                steps <= fuel,
                self.wf(),
                pgmv == pgm@.instrs,
                init == init_exec(old(self)@),
                (run(pgmv, init, steps as nat) == (AExecV {
                    m: self@,
                    ic: ic as int,
                    status: AStatus::Running,
                })),
                forall|n: nat|
                    n <= fuel ==> !((#[trigger] run(pgmv, init, n)).status
                        matches AStatus::Trapped),
            decreases fuel - steps,
        {
            if steps >= fuel {
                return false;
            }
            let ghost cur = run(pgmv, init, steps as nat);
            proof {
                assert(run(pgmv, init, steps as nat + 1) == step(pgmv, cur));
                assert(!(step(pgmv, cur).status matches AStatus::Trapped));
            }
            let plen: usize = pgm.instrs.len();
            proof {
                assert(ic < plen);
            }
            let instr = &pgm.instrs[ic];
            proof {
                assert(instr@ == pgmv[ic as int]);
            }
            match instr {
                MInstr::Undef => {
                    proof {
                        assert(false);
                    }
                    return false;
                },
                MInstr::LDL(v) => {
                    self.push(*v);
                    ic = ic + 1;
                },
                MInstr::LD(_, loc) => {
                    self.ld(*loc);
                    ic = ic + 1;
                },
                MInstr::ST(_, loc) => {
                    self.st(*loc);
                    ic = ic + 1;
                },
                MInstr::B(_, t) => {
                    ic = *t;
                },
                MInstr::BFP(_, t) => {
                    let v = self.pop();
                    if v.is_zero() {
                        ic = *t;
                    } else {
                        ic = ic + 1;
                    }
                },
                MInstr::BTP(_, t) => {
                    let v = self.pop();
                    if !v.is_zero() {
                        ic = *t;
                    } else {
                        ic = ic + 1;
                    }
                },
                MInstr::ADD => {
                    self.add();
                    ic = ic + 1;
                },
                MInstr::SUB => {
                    self.sub();
                    ic = ic + 1;
                },
                MInstr::MLT => {
                    self.mlt();
                    ic = ic + 1;
                },
                MInstr::EQU => {
                    self.equ();
                    ic = ic + 1;
                },
                MInstr::EDT(s) => {
                    self.edt(s.as_str());
                    ic = ic + 1;
                },
                MInstr::PNT => {
                    self.pnt();
                    ic = ic + 1;
                },
                MInstr::HLT => {
                    proof {
                        assert(step(pgmv, cur) =~= (AExecV {
                            m: self@,
                            ic: ic as int,
                            status: AStatus::Halted,
                        }));
                        lemma_run_absorb(pgmv, init, steps as nat + 1, fuel as nat);
                    }
                    return true;
                },
            }
            proof {
                assert(step(pgmv, cur) =~= (AExecV {
                    m: self@,
                    ic: ic as int,
                    status: AStatus::Running,
                }));
            }
            steps = steps + 1;
        }
    }
}

/// The AVM's mnemonic table.
pub open spec fn avm_ops() -> Seq<(Seq<char>, ArgForm)> {
    seq![
        ("B"@, ArgForm::LabelIc),
        ("BFP"@, ArgForm::LabelIc),
        ("BTP"@, ArgForm::LabelIc),
        ("LDL"@, ArgForm::Num),
        ("ST"@, ArgForm::LabelMem),
        ("LD"@, ArgForm::LabelMem),
        ("EQU"@, ArgForm::NoArg),
        ("ADD"@, ArgForm::NoArg),
        ("SUB"@, ArgForm::NoArg),
        ("MLT"@, ArgForm::NoArg),
        ("EDT"@, ArgForm::Str),
        ("PNT"@, ArgForm::NoArg),
        ("HLT"@, ArgForm::NoArg),
    ]
}

/// The AVM dialect: its mnemonics, with `BLK` accepted.
pub fn avm_dialect() -> (d: Dialect)
    ensures
        d@.ops == avm_ops(),
        d@.accept_blk == true,
{
    let mut ops: Vec<OpDesc> = Vec::new();
    ops.push(OpDesc { name: String::from_str("B"), form: ArgForm::LabelIc });
    ops.push(OpDesc { name: String::from_str("BFP"), form: ArgForm::LabelIc });
    ops.push(OpDesc { name: String::from_str("BTP"), form: ArgForm::LabelIc });
    ops.push(OpDesc { name: String::from_str("LDL"), form: ArgForm::Num });
    ops.push(OpDesc { name: String::from_str("ST"), form: ArgForm::LabelMem });
    ops.push(OpDesc { name: String::from_str("LD"), form: ArgForm::LabelMem });
    ops.push(OpDesc { name: String::from_str("EQU"), form: ArgForm::NoArg });
    ops.push(OpDesc { name: String::from_str("ADD"), form: ArgForm::NoArg });
    ops.push(OpDesc { name: String::from_str("SUB"), form: ArgForm::NoArg });
    ops.push(OpDesc { name: String::from_str("MLT"), form: ArgForm::NoArg });
    ops.push(OpDesc { name: String::from_str("EDT"), form: ArgForm::Str });
    ops.push(OpDesc { name: String::from_str("PNT"), form: ArgForm::NoArg });
    ops.push(OpDesc { name: String::from_str("HLT"), form: ArgForm::NoArg });
    let d = Dialect { ops, accept_blk: true };
    proof {
        assert(d@.ops =~= avm_ops());
    }
    d
}

/// The AVM instruction the assembler's neutral form stands for.
pub open spec fn spec_from_raw(r: RInstrV) -> MInstrV {
    match r {
        RInstrV::NoArg(m) => if m == "EQU"@ {
            MInstrV::EQU
        } else if m == "ADD"@ {
            MInstrV::ADD
        } else if m == "SUB"@ {
            MInstrV::SUB
        } else if m == "MLT"@ {
            MInstrV::MLT
        } else if m == "PNT"@ {
            MInstrV::PNT
        } else if m == "HLT"@ {
            MInstrV::HLT
        } else {
            MInstrV::Undef
        },
        RInstrV::Branch(m, l, t) => if m == "B"@ {
            MInstrV::B(l, t)
        } else if m == "BFP"@ {
            MInstrV::BFP(l, t)
        } else if m == "BTP"@ {
            MInstrV::BTP(l, t)
        } else {
            MInstrV::Undef
        },
        RInstrV::MemRef(m, l, a) => if m == "ST"@ {
            MInstrV::ST(l, a as u32)
        } else if m == "LD"@ {
            MInstrV::LD(l, a as u32)
        } else {
            MInstrV::Undef
        },
        RInstrV::Num(m, v) => if m == "LDL"@ {
            MInstrV::LDL(v)
        } else {
            MInstrV::Undef
        },
        RInstrV::Str(m, s) => if m == "EDT"@ {
            MInstrV::EDT(s)
        } else {
            MInstrV::Undef
        },
    }
}

/// Builds the AVM instruction a neutral instruction stands for.
pub fn instr_from_raw(r: &RInstr) -> (out: MInstr)
    ensures
        out@ == spec_from_raw(r@),
{
    match r {
        RInstr::NoArg(m) => {
            if str_eq(m.as_str(), "EQU") {
                MInstr::EQU
            } else if str_eq(m.as_str(), "ADD") {
                MInstr::ADD
            } else if str_eq(m.as_str(), "SUB") {
                MInstr::SUB
            } else if str_eq(m.as_str(), "MLT") {
                MInstr::MLT
            } else if str_eq(m.as_str(), "PNT") {
                MInstr::PNT
            } else if str_eq(m.as_str(), "HLT") {
                MInstr::HLT
            } else {
                MInstr::Undef
            }
        },
        RInstr::Branch(m, l, t) => {
            if str_eq(m.as_str(), "B") {
                MInstr::B(l.clone(), *t)
            } else if str_eq(m.as_str(), "BFP") {
                MInstr::BFP(l.clone(), *t)
            } else if str_eq(m.as_str(), "BTP") {
                MInstr::BTP(l.clone(), *t)
            } else {
                MInstr::Undef
            }
        },
        RInstr::MemRef(m, l, a) => {
            if str_eq(m.as_str(), "ST") {
                MInstr::ST(l.clone(), *a)
            } else if str_eq(m.as_str(), "LD") {
                MInstr::LD(l.clone(), *a)
            } else {
                MInstr::Undef
            }
        },
        RInstr::Num(m, v) => {
            if str_eq(m.as_str(), "LDL") {
                MInstr::LDL(*v)
            } else {
                MInstr::Undef
            }
        },
        RInstr::Str(m, s) => {
            if str_eq(m.as_str(), "EDT") {
                MInstr::EDT(s.clone())
            } else {
                MInstr::Undef
            }
        },
    }
}

/// What assembling AVM text yields.
pub open spec fn spec_assemble(text: Seq<char>) -> Result<AProgV, AsmErrorV> {
    let d = DialectV { ops: avm_ops(), accept_blk: true };
    match crate::assembler::spec_parse(d, text) {
        Result::Err(e) => Result::Err(e),
        Result::Ok(pv) => Result::Ok(
            AProgV {
                instrs: Seq::new(pv.instrs.len(), |i: int| spec_from_raw(pv.instrs[i])),
                labels: pv.labels,
                ic: pv.ic,
            },
        ),
    }
}

/// Assembles an AVM program from text.
pub fn assemble(pgm: &str) -> (r: Result<MProgram, AsmError>)
    ensures
        (match spec_assemble(pgm@) {
            Result::Ok(pv) => r matches Ok(p) && p@ == pv,
            Result::Err(ev) => r matches Err(e) && e@ == ev,
        }),
{
    let d = avm_dialect();
    let raw = match crate::assembler::parse(&d, pgm) {
        Err(e) => {
            return Err(e);
        },
        Ok(p) => p,
    };
    let mut instrs: Vec<MInstr> = Vec::new();
    let mut i: usize = 0;
    let n = raw.instrs.len();
    while i < n
        invariant
            0 <= i <= n,
            n == raw.instrs@.len(),
            instrs@.len() == i,
            forall|k: int| 0 <= k < i ==> #[trigger] instrs@[k]@ == spec_from_raw(raw@.instrs[k]),
        decreases n - i,
    {
        let mi = instr_from_raw(&raw.instrs[i]);
        instrs.push(mi);
        i = i + 1;
    }
    let p = MProgram { instrs, labels: raw.labels, ic: raw.ic };
    proof {
        match spec_assemble(pgm@) {
            Result::Ok(pv) => {
                assert(ainstr_views(p.instrs@) =~= pv.instrs);
                assert(p@ =~= pv);
            },
            Result::Err(_) => {},
        }
    }
    Ok(p)
}

/// What the machine command is told: the program to load.
pub struct Options {
    pub pgm_path: String,
}

impl Options {
    /// Reads the program path from the argument list, the leading program
    /// name skipped.
    pub fn build(args: Vec<String>) -> (r: Result<Options, &'static str>)
        ensures
            args@.len() >= 2 ==> (r matches Ok(o) && o.pgm_path@ == args@[1]@),
            args@.len() < 2 ==> (r matches Err(e) && e@ == "missing program path argument"@),
    {
        if args.len() < 2 {
            return Err("missing program path argument");
        }
        Ok(Options { pgm_path: args[1].clone() })
    }
}

} // verus!
