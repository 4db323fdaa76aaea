//! The frame and the registers of x86-64 under the System V calling
//! convention.

use vstd::prelude::*;
use vstd::string::*;
use super::Frame;
use crate::assem::{instruction_views, Instruction, InstructionView, Subroutine};
use crate::ir::{BinOp, Exp, ExpView, Statement, StatementView, exp_view, exp_views, statement_view};
use crate::temp::{Gensym, Label, LabelView, Temp};
use crate::text::{i64_to_string, signed_decimal};

verus! {

/// The size of a pointer in bytes.
pub const POINTER_SIZE: i64 = 8;

/// The lowest offset a frame may reach.
pub const MIN_POINTER: i64 = -0x4000_0000_0000_0000;

/// The largest number of formal parameters a frame may have.
pub const MAX_FORMALS: usize = 0x0fff_ffff;

pub const RBP: u32 = 1;

pub const RSP: u32 = 2;

pub const RAX: u32 = 3;

pub const RBX: u32 = 4;

pub const RCX: u32 = 5;

pub const RDX: u32 = 6;

pub const RSI: u32 = 7;

pub const RDI: u32 = 8;

pub const R8: u32 = 9;

pub const R9: u32 = 10;

pub const R10: u32 = 11;

pub const R11: u32 = 12;

pub const R12: u32 = 13;

pub const R13: u32 = 14;

pub const R14: u32 = 15;

pub const R15: u32 = 16;

/// The temporary with the given number.
pub open spec fn spec_reg(num: u32) -> Temp {
    Temp { num }
}

/// The temporary with the given number.
#[verifier::when_used_as_spec(spec_reg)]
pub fn reg(num: u32) -> (temp: Temp)
    ensures
        temp == spec_reg(num),
{
    Temp { num }
}

/// Where a variable lives: in the frame, at an offset from the frame
/// pointer, or in a temporary.
#[derive(Clone, Copy, Debug, PartialEq, Eq, Structural)]
pub enum Access {
    InFrame(i64),
    InReg(Temp),
}

/// The frame of one function.
#[derive(Clone, Debug)]
pub struct X86_64 {
    pub formals: Vec<Access>,
    pub name: Label,
    pub pointer: i64,
}

/// The registers in which the first six arguments are passed.
pub open spec fn argument_registers() -> Seq<Temp> {
    seq![reg(RDI), reg(RSI), reg(RDX), reg(RCX), reg(R8), reg(R9)]
}

/// The registers a function must hand back as it found them.
pub open spec fn callee_saved() -> Seq<Temp> {
    seq![reg(RBX), reg(RBP), reg(R12), reg(R13), reg(R14), reg(R15)]
}

/// The return-value register and the stack pointer.
pub open spec fn special() -> Seq<Temp> {
    seq![reg(RAX), reg(RSP)]
}

/// The registers a call may overwrite beside those of its arguments.
pub open spec fn caller_saved() -> Seq<Temp> {
    seq![reg(R10), reg(R11)]
}

/// How many of the first `upto` formals escape.
pub open spec fn escaping_before(formals: Seq<bool>, upto: int) -> int
    decreases upto,
{
    if upto <= 0 {
        0
    } else {
        escaping_before(formals, upto - 1) + if formals[upto - 1] {
            1int
        } else {
            0int
        }
    }
}

/// Where the formal at `index` lives in a frame laid out from a supply whose
/// last temporary was `temps`: the escaping ones at successive words below
/// the frame pointer, the others in successive fresh temporaries.
pub open spec fn formal_access(formals: Seq<bool>, index: int, temps: u32) -> Access {
    if formals[index] {
        Access::InFrame((-8 * (escaping_before(formals, index) + 1)) as i64)
    } else {
        Access::InReg(Temp { num: (temps + (index - escaping_before(formals, index)) + 1) as u32 })
    }
}

/// The stack size that the prologue reserves for locals that reach down to
/// `pointer`: the next multiple of sixteen.
pub open spec fn stack_size(pointer: int) -> int {
    let size = -pointer;
    if size % 16 == 0 {
        size
    } else {
        size - size % 16 + 16
    }
}

/// The temporary that holds the callee-saved register at `index` while the
/// body runs.
pub open spec fn saved_temp(gensym: Gensym, index: int) -> Temp {
    Temp { num: (gensym.temps + 1 + index) as u32 }
}

/// The moves that save the callee-saved registers.
pub open spec fn save_statements(gensym: Gensym) -> Seq<StatementView> {
    Seq::new(
        6,
        |i: int|
            StatementView::Move(
                ExpView::Temp(saved_temp(gensym, i)),
                ExpView::Temp(callee_saved()[i]),
            ),
    )
}

/// The moves that restore the callee-saved registers.
pub open spec fn restore_statements(gensym: Gensym) -> Seq<StatementView> {
    Seq::new(
        6,
        |i: int|
            StatementView::Move(
                ExpView::Temp(callee_saved()[i]),
                ExpView::Temp(saved_temp(gensym, i)),
            ),
    )
}

/// The expression of a variable in the frame whose pointer `stack_frame` is.
pub open spec fn access_exp(access: Access, stack_frame: ExpView) -> ExpView {
    match access {
        Access::InFrame(position) => ExpView::Mem(
            Box::new(
                ExpView::BinOp {
                    op: BinOp::Plus,
                    left: Box::new(stack_frame),
                    right: Box::new(ExpView::Const(position)),
                },
            ),
        ),
        Access::InReg(register) => ExpView::Temp(register),
    }
}

/// The word above the frame pointer in which the caller left the stack
/// argument at `index`, counted from the first that is not in a register.
pub open spec fn stack_argument(index: int) -> ExpView {
    ExpView::Mem(
        Box::new(
            ExpView::BinOp {
                op: BinOp::Plus,
                left: Box::new(ExpView::Temp(reg(RBP))),
                right: Box::new(ExpView::Const((8 * (index + 2)) as i64)),
            },
        ),
    )
}

/// The move that brings the formal at `index` to where the body expects it:
/// from its argument register, or from the caller's frame.
pub open spec fn formal_statement(formals: Seq<Access>, index: int) -> StatementView {
    if index < 6 {
        StatementView::Move(
            access_exp(formals[index], ExpView::Temp(reg(RBP))),
            ExpView::Temp(argument_registers()[index]),
        )
    } else {
        StatementView::Move(
            access_exp(formals[index], ExpView::Temp(reg(RBP))),
            stack_argument(index - 6),
        )
    }
}

/// The moves that bring the formals into place: those passed in registers
/// first, those passed on the stack after them.
pub open spec fn formal_statements(formals: Seq<Access>) -> Seq<StatementView> {
    Seq::new(formals.len(), |i: int| formal_statement(formals, i))
}

/// `body` after the statements of `start`, as nested sequences that open
/// with the first of them.
pub open spec fn wrap_before(start: Seq<StatementView>, body: StatementView) -> StatementView
    decreases start.len(),
{
    if start.len() == 0 {
        body
    } else {
        wrap_before(
            start.drop_last(),
            StatementView::Sequence(Box::new(start.last()), Box::new(body)),
        )
    }
}

/// `first` before the statements of `end`, as nested sequences that close
/// with the last of them.
pub open spec fn chain_after(first: StatementView, end: Seq<StatementView>) -> StatementView
    decreases end.len(),
{
    if end.len() == 0 {
        first
    } else {
        StatementView::Sequence(
            Box::new(chain_after(first, end.drop_last())),
            Box::new(end.last()),
        )
    }
}

/// The instruction without assembly that reads the registers which must
/// stay alive to the end of the function.
pub open spec fn sink() -> InstructionView {
    InstructionView::Operation {
        assembly: Seq::empty(),
        destination: Seq::empty(),
        source: callee_saved() + special(),
        jump: Some(Seq::empty()),
    }
}

/// The position of the first instruction from `from` on that is no label;
/// the length of the list if there is none.
pub open spec fn first_operation(instructions: Seq<InstructionView>, from: int) -> int
    decreases instructions.len() - from,
{
    if from < 0 || from >= instructions.len() {
        instructions.len() as int
    } else if instructions[from] is Label {
        first_operation(instructions, from + 1)
    } else {
        from
    }
}

/// The instructions followed by the sink, with the frame and stack pointers
/// written by the first instruction that is no label and read by the last.
pub open spec fn mark_live(instructions: Seq<InstructionView>) -> Seq<InstructionView> {
    let with_sink = instructions.push(sink());
    let first = first_operation(with_sink, 0);
    let opened = with_sink.update(
        first,
        with_sink[first].with_operands(
            with_sink[first].destination() + seq![reg(RBP), reg(RSP)],
            with_sink[first].source(),
        ),
    );
    let last = opened.len() - 1;
    opened.update(
        last,
        opened[last].with_operands(opened[last].destination(), opened[last].source() + seq![reg(RBP), reg(RSP)]),
    )
}

impl X86_64 {
    /// The registers in which the first six arguments are passed, in order.
    pub fn arg_registers() -> (registers: Vec<Temp>)
        ensures
            registers@ == argument_registers(),
    {
        let registers = vec![reg(RDI), reg(RSI), reg(RDX), reg(RCX), reg(R8), reg(R9)];
        assert(registers@ =~= argument_registers());
        registers
    }

    /// The registers a function must hand back as it found them.
    pub fn callee_saved_registers() -> (registers: Vec<Temp>)
        ensures
            registers@ == callee_saved(),
    {
        let registers = vec![reg(RBX), reg(RBP), reg(R12), reg(R13), reg(R14), reg(R15)];
        assert(registers@ =~= callee_saved());
        registers
    }

    /// The return-value register and the stack pointer.
    pub fn special_registers() -> (registers: Vec<Temp>)
        ensures
            registers@ == special(),
    {
        let registers = vec![reg(RAX), reg(RSP)];
        assert(registers@ =~= special());
        registers
    }

    /// The registers a call may overwrite beside those of its arguments.
    pub fn caller_saved_registers() -> (registers: Vec<Temp>)
        ensures
            registers@ == caller_saved(),
    {
        let registers = vec![reg(R10), reg(R11)];
        assert(registers@ =~= caller_saved());
        registers
    }

    /// The registers a call overwrites: the caller-saved ones, those of the
    /// arguments, and that of the result.
    pub fn calldefs() -> (registers: Vec<Temp>)
        ensures
            registers@ == caller_saved() + argument_registers() + seq![reg(RAX)],
    {
        let registers = vec![reg(R10), reg(R11), reg(RDI), reg(RSI), reg(RDX), reg(RCX), reg(R8), reg(R9), reg(RAX)];
        assert(registers@ =~= caller_saved() + argument_registers() + seq![reg(RAX)]);
        registers
    }

    /// The stack pointer.
    pub fn rsp() -> (temp: Temp)
        ensures
            temp == reg(RSP),
    {
        reg(RSP)
    }

    /// The register of a function's result.
    pub fn rax() -> (temp: Temp)
        ensures
            temp == reg(RAX),
    {
        reg(RAX)
    }

    /// The third argument register, which also takes the remainder of a
    /// division.
    pub fn rdx() -> (temp: Temp)
        ensures
            temp == reg(RDX),
    {
        reg(RDX)
    }
}

/// The name of the machine register that a temporary stands for.
pub open spec fn register_name(temp: Temp) -> Option<Seq<char>> {
    if temp.num == RBP {
        Some("rbp"@)
    } else if temp.num == RSP {
        Some("rsp"@)
    } else if temp.num == RAX {
        Some("rax"@)
    } else if temp.num == RBX {
        Some("rbx"@)
    } else if temp.num == RCX {
        Some("rcx"@)
    } else if temp.num == RDX {
        Some("rdx"@)
    } else if temp.num == RSI {
        Some("rsi"@)
    } else if temp.num == RDI {
        Some("rdi"@)
    } else if temp.num == R8 {
        Some("r8"@)
    } else if temp.num == R9 {
        Some("r9"@)
    } else if temp.num == R10 {
        Some("r10"@)
    } else if temp.num == R11 {
        Some("r11"@)
    } else if temp.num == R12 {
        Some("r12"@)
    } else if temp.num == R13 {
        Some("r13"@)
    } else if temp.num == R14 {
        Some("r14"@)
    } else if temp.num == R15 {
        Some("r15"@)
    } else {
        None
    }
}

/// The sixteen registers: those of the arguments, that of the result, the
/// callee-saved ones, the stack pointer and the caller-saved ones.
pub open spec fn machine_registers() -> Seq<Temp> {
    argument_registers() + seq![reg(RAX)] + callee_saved() + seq![reg(RSP)] + caller_saved()
}

/// The text that follows the function's name in its prologue.
pub open spec fn prolog_text() -> Seq<char> {
    ":\n    push rbp\n    mov rbp, rsp\n    sub rsp, "@
}

/// The text of the epilogue.
pub open spec fn epilog_text() -> Seq<char> {
    "leave\n    ret"@
}

impl Frame for X86_64 {
    type Access = Access;

    open spec fn spec_word_size() -> int {
        8
    }

    fn word_size() -> (size: i64) {
        8
    }

    open spec fn spec_registers() -> Seq<Temp> {
        machine_registers()
    }

    fn registers() -> (registers: Vec<Temp>) {
        let registers = vec![
            reg(RDI),
            reg(RSI),
            reg(RDX),
            reg(RCX),
            reg(R8),
            reg(R9),
            reg(RAX),
            reg(RBX),
            reg(RBP),
            reg(R12),
            reg(R13),
            reg(R14),
            reg(R15),
            reg(RSP),
            reg(R10),
            reg(R11),
        ];
        assert(registers@ =~= machine_registers());
        registers
    }

    open spec fn spec_register_count() -> nat {
        14
    }

    fn register_count() -> (count: usize) {
        let registers = Self::registers();
        registers.len() - 2
    }

    open spec fn spec_special_name(temp: Temp) -> Option<Seq<char>> {
        register_name(temp)
    }

    fn special_name(temp: Temp) -> (name: Option<&'static str>) {
        if temp.num == RBP {
            Some("rbp")
        } else if temp.num == RSP {
            Some("rsp")
        } else if temp.num == RAX {
            Some("rax")
        } else if temp.num == RBX {
            Some("rbx")
        } else if temp.num == RCX {
            Some("rcx")
        } else if temp.num == RDX {
            Some("rdx")
        } else if temp.num == RSI {
            Some("rsi")
        } else if temp.num == RDI {
            Some("rdi")
        } else if temp.num == R8 {
            Some("r8")
        } else if temp.num == R9 {
            Some("r9")
        } else if temp.num == R10 {
            Some("r10")
        } else if temp.num == R11 {
            Some("r11")
        } else if temp.num == R12 {
            Some("r12")
        } else if temp.num == R13 {
            Some("r13")
        } else if temp.num == R14 {
            Some("r14")
        } else if temp.num == R15 {
            Some("r15")
        } else {
            None
        }
    }

    fn temp_map() -> (map: Vec<(Temp, &'static str)>) {
        let map = vec![
            (reg(RBP), "rbp"),
            (reg(RSP), "rsp"),
            (reg(RAX), "rax"),
            (reg(RBX), "rbx"),
            (reg(RDI), "rdi"),
            (reg(RSI), "rsi"),
            (reg(RDX), "rdx"),
            (reg(RCX), "rcx"),
            (reg(R8), "r8"),
            (reg(R9), "r9"),
            (reg(R10), "r10"),
            (reg(R11), "r11"),
            (reg(R12), "r12"),
            (reg(R13), "r13"),
            (reg(R14), "r14"),
            (reg(R15), "r15"),
        ];
        proof {
            assert forall|temp: Temp| register_name(temp) is Some implies exists|i: int|
                0 <= i < map@.len() && (#[trigger] map@[i]).0 == temp by {
                let i: int = if temp.num == RBP {
                    0
                } else if temp.num == RSP {
                    1
                } else if temp.num == RAX {
                    2
                } else if temp.num == RBX {
                    3
                } else if temp.num == RDI {
                    4
                } else if temp.num == RSI {
                    5
                } else if temp.num == RDX {
                    6
                } else if temp.num == RCX {
                    7
                } else {
                    temp.num - 1
                };
                assert(map@[i].0 == temp);
            }
        }
        map
    }

    open spec fn spec_fp() -> Temp {
        reg(RBP)
    }

    fn fp() -> (temp: Temp) {
        reg(RBP)
    }

    open spec fn spec_return_value() -> Temp {
        reg(RAX)
    }

    fn return_value() -> (temp: Temp) {
        reg(RAX)
    }

    open spec fn wf(&self) -> bool {
        &&& MIN_POINTER <= self.pointer <= 0
        &&& self.formals@.len() <= MAX_FORMALS
    }

    open spec fn label(&self) -> LabelView {
        self.name@
    }

    open spec fn accesses(&self) -> Seq<Access> {
        self.formals@
    }

    open spec fn room(&self) -> nat {
        if self.pointer >= MIN_POINTER {
            ((self.pointer - MIN_POINTER) / 8) as nat
        } else {
            0
        }
    }

    open spec fn admits(formals: Seq<bool>, gensym: Gensym) -> bool {
        &&& formals.len() <= MAX_FORMALS
        &&& gensym.temps + formals.len() <= u32::MAX
    }

    fn new(name: Label, formals: Vec<bool>, gensym: &mut Gensym) -> (frame: Self)
        ensures
            frame.pointer == -8 * escaping_before(formals@, formals@.len() as int),
            forall|i: int|
                0 <= i < formals@.len() ==> #[trigger] frame.formals@[i] == formal_access(
                    formals@,
                    i,
                    old(gensym).temps,
                ),
            final(gensym).temps == old(gensym).temps + formals@.len() - escaping_before(
                formals@,
                formals@.len() as int,
            ),
    {
        let mut frame = X86_64 { formals: Vec::new(), name, pointer: 0 };
        let mut accesses: Vec<Access> = Vec::new();
        let mut index: usize = 0;
        while index < formals.len()
            invariant
                index <= formals@.len(),
                formals@.len() <= MAX_FORMALS,
                old(gensym).temps + formals@.len() <= u32::MAX,
                0 <= escaping_before(formals@, index as int) <= index,
                frame.formals@.len() == 0,
                frame.name == name,
                frame.pointer == -8 * escaping_before(formals@, index as int),
                accesses@.len() == index,
                forall|i: int|
                    0 <= i < index ==> #[trigger] accesses@[i] == formal_access(
                        formals@,
                        i,
                        old(gensym).temps,
                    ),
                gensym.temps == old(gensym).temps + index - escaping_before(formals@, index as int),
                gensym.labels == old(gensym).labels,
                gensym.uniques == old(gensym).uniques,
            decreases formals@.len() - index,
        {
            let access = frame.alloc_local(formals[index], gensym);
            accesses.push(access);
            index = index + 1;
        }
        frame.formals = accesses;
        frame
    }

    fn name(&self) -> (name: Label) {
        self.name.copy()
    }

    fn formals(&self) -> (formals: &Vec<Access>) {
        &self.formals
    }

    fn has_room(&self, slots: usize) -> (enough: bool) {
        let room = (self.pointer - MIN_POINTER) / 8;
        slots as u64 <= room as u64
    }

    fn alloc_local(&mut self, escape: bool, gensym: &mut Gensym) -> (access: Access)
        ensures
            final(self).name == old(self).name,
            final(self).formals == old(self).formals,
            escape ==> final(self).pointer == old(self).pointer - 8 && access == Access::InFrame(
                final(self).pointer,
            ),
            !escape ==> final(self).pointer == old(self).pointer && access == Access::InReg(
                Temp { num: (old(gensym).temps + 1) as u32 },
            ),
    {
        if escape {
            self.pointer = self.pointer - POINTER_SIZE;
            Access::InFrame(self.pointer)
        } else {
            Access::InReg(Temp::new(gensym))
        }
    }

    open spec fn spec_exp(access: Access, stack_frame: ExpView) -> ExpView {
        access_exp(access, stack_frame)
    }

    fn exp(&self, access: Access, stack_frame: Exp) -> (exp: Exp) {
        proof {
            reveal_with_fuel(exp_view, 4);
        }
        match access {
            Access::InFrame(position) => Exp::Mem(
                Box::new(
                    Exp::BinOp {
                        op: BinOp::Plus,
                        left: Box::new(stack_frame),
                        right: Box::new(Exp::Const(position)),
                    },
                ),
            ),
            Access::InReg(register) => Exp::Temp(register),
        }
    }

    fn external_call(name: &str, arguments: Vec<Exp>) -> (call: Exp) {
        proof {
            reveal_with_fuel(exp_view, 4);
        }
        let call = Exp::Call(Box::new(Exp::Name(Label::with_name(name))), arguments);
        assert(call@->Call_1 =~= exp_views(arguments@));
        call
    }

    open spec fn entry_admits(&self, gensym: Gensym) -> bool {
        gensym.temps + 6 <= u32::MAX
    }

    open spec fn spec_entry_exit1(&self, statement: StatementView, gensym: Gensym) -> StatementView {
        StatementView::Sequence(
            Box::new(
                wrap_before(save_statements(gensym) + formal_statements(self.formals@), statement),
            ),
            Box::new(
                chain_after(StatementView::Exp(ExpView::Const(0)), restore_statements(gensym)),
            ),
        )
    }

    fn proc_entry_exit1(&mut self, statement: Statement, gensym: &mut Gensym) -> (wrapped:
        Statement)
        ensures
            *final(self) == *old(self),
            *final(gensym) == (Gensym { temps: (old(gensym).temps + 6) as u32, ..*old(gensym) }),
    {
        let ghost start_views = save_statements(*gensym) + formal_statements(self.formals@);
        let ghost end_views = restore_statements(*gensym);
        let ghost first_gensym = *gensym;
        let mut start_statements: Vec<Statement> = Vec::new();
        let mut saved: Vec<Temp> = Vec::new();
        let callee = Self::callee_saved_registers();
        let mut index: usize = 0;
        while index < 6
            invariant
                index <= 6,
                callee@ == callee_saved(),
                first_gensym.temps + 6 <= u32::MAX,
                *gensym == (Gensym { temps: (first_gensym.temps + index) as u32, ..first_gensym }),
                saved@.len() == index,
                forall|i: int| 0 <= i < index ==> #[trigger] saved@[i] == saved_temp(first_gensym, i),
                start_statements@.len() == index,
                forall|i: int|
                    0 <= i < index ==> (#[trigger] start_statements@[i])@ == save_statements(
                        first_gensym,
                    )[i],
            decreases 6 - index,
        {
            proof {
                reveal_with_fuel(exp_view, 4);
                reveal_with_fuel(statement_view, 4);
            }
            let local = Temp::new(gensym);
            saved.push(local);
            start_statements.push(Statement::Move(Exp::Temp(local), Exp::Temp(callee[index])));
            index = index + 1;
        }
        let arguments = Self::arg_registers();
        let mut position: usize = 0;
        while position < self.formals.len()
            invariant
                position <= self.formals@.len(),
                self.formals@.len() <= MAX_FORMALS,
                arguments@ == argument_registers(),
                start_statements@.len() == 6 + position,
                forall|i: int|
                    0 <= i < 6 ==> (#[trigger] start_statements@[i])@ == save_statements(
                        first_gensym,
                    )[i],
                forall|i: int|
                    0 <= i < position ==> (#[trigger] start_statements@[6 + i])@
                        == formal_statement(self.formals@, i),
            decreases self.formals@.len() - position,
        {
            proof {
                reveal_with_fuel(exp_view, 4);
                reveal_with_fuel(statement_view, 4);
            }
            let destination = self.exp(self.formals[position], Exp::Temp(Self::fp()));
            if position < 6 {
                start_statements.push(
                    Statement::Move(destination, Exp::Temp(arguments[position])),
                );
            } else {
                let offset: i64 = 8 * ((position - 6) as i64 + 2);
                start_statements.push(
                    Statement::Move(
                        destination,
                        Exp::Mem(
                            Box::new(
                                Exp::BinOp {
                                    op: BinOp::Plus,
                                    left: Box::new(Exp::Temp(Self::fp())),
                                    right: Box::new(Exp::Const(offset)),
                                },
                            ),
                        ),
                    ),
                );
            }
            position = position + 1;
        }
        proof {
            reveal_with_fuel(exp_view, 4);
            reveal_with_fuel(statement_view, 4);
        }
        let mut end_statement = Statement::Exp(Exp::Const(0));
        let mut restored: usize = 0;
        while restored < 6
            invariant
                restored <= 6,
                callee@ == callee_saved(),
                saved@.len() == 6,
                forall|i: int| 0 <= i < 6 ==> #[trigger] saved@[i] == saved_temp(first_gensym, i),
                end_statement@ == chain_after(
                    StatementView::Exp(ExpView::Const(0)),
                    end_views.subrange(0, restored as int),
                ),
                end_views == restore_statements(first_gensym),
            decreases 6 - restored,
        {
            proof {
                reveal_with_fuel(exp_view, 4);
                reveal_with_fuel(statement_view, 4);
                let longer = end_views.subrange(0, restored + 1);
                assert(longer.drop_last() =~= end_views.subrange(0, restored as int));
                assert(longer.last() == end_views[restored as int]);
            }
            end_statement =
            Statement::Sequence(
                Box::new(end_statement),
                Box::new(Statement::Move(Exp::Temp(callee[restored]), Exp::Temp(saved[restored]))),
            );
            restored = restored + 1;
        }
        assert(end_views.subrange(0, 6) =~= end_views);
        let mut body = statement;
        let ghost all = start_statements@;
        proof {
            assert(all.len() == start_views.len());
            assert forall|i: int| 0 <= i < all.len() implies (#[trigger] all[i])@
                == start_views[i] by {
                if i >= 6 {
                    assert(all[i] == start_statements@[6 + (i - 6)]);
                }
            }
            assert(start_views.subrange(0, all.len() as int) =~= start_views);
            assert(all.subrange(0, all.len() as int) =~= all);
        }
        while start_statements.len() > 0
            invariant
                start_statements@.len() <= all.len(),
                start_statements@ == all.subrange(0, start_statements@.len() as int),
                all.len() == start_views.len(),
                forall|i: int| 0 <= i < all.len() ==> (#[trigger] all[i])@ == start_views[i],
                wrap_before(start_views.subrange(0, start_statements@.len() as int), body@)
                    == wrap_before(start_views, statement@),
            decreases start_statements@.len(),
        {
            let ghost before = start_statements@.len() as int;
            let last = start_statements.pop().unwrap();
            proof {
                reveal_with_fuel(statement_view, 2);
                let prefix = start_views.subrange(0, before);
                assert(prefix.drop_last() =~= start_views.subrange(0, before - 1));
                assert(prefix.last() == start_views[before - 1]);
                assert(start_statements@ =~= all.subrange(0, before - 1));
                assert(last@ == start_views[before - 1]);
            }
            body = Statement::Sequence(Box::new(last), Box::new(body));
        }
        Statement::Sequence(Box::new(body), Box::new(end_statement))
    }

    open spec fn spec_entry_exit2(instructions: Seq<InstructionView>) -> Seq<InstructionView> {
        mark_live(instructions)
    }

    fn proc_entry_exit2(&self, instructions: Vec<Instruction>) -> (marked: Vec<Instruction>) {
        let ghost given = instruction_views(instructions@);
        let mut marked = instructions;
        let sink_instruction = Instruction::Operation {
            assembly: String::new(),
            destination: Vec::new(),
            source: vec![
                reg(RBX),
                reg(RBP),
                reg(R12),
                reg(R13),
                reg(R14),
                reg(R15),
                reg(RAX),
                reg(RSP),
            ],
            jump: Some(Vec::new()),
        };
        proof {
            assert(sink_instruction@.source() =~= callee_saved() + special());
            assert(sink_instruction@->Operation_jump->0 =~= Seq::<LabelView>::empty());
            assert(sink_instruction@ == sink());
        }
        marked.push(sink_instruction);
        let ghost with_sink = given.push(sink());
        assert(instruction_views(marked@) =~= with_sink);
        let mut index: usize = 0;
        while index < marked.len() && is_label(&marked[index])
            invariant
                index <= marked@.len(),
                instruction_views(marked@) == with_sink,
                first_operation(with_sink, index as int) == first_operation(with_sink, 0),
            decreases marked@.len() - index,
        {
            index = index + 1;
        }
        assert(with_sink[with_sink.len() - 1] == sink());
        assert(index < marked@.len()) by {
            if index >= marked@.len() {
                lemma_first_operation_finds(with_sink, 0, with_sink.len() - 1);
            }
        }
        let first = add_destinations(&marked[index]);
        marked[index] = first;
        let last_index = marked.len() - 1;
        let last = add_sources(&marked[last_index]);
        marked[last_index] = last;
        assert(instruction_views(marked@) =~= mark_live(given));
        marked
    }

    open spec fn spec_prolog(&self) -> Seq<char> {
        self.name.text() + prolog_text() + signed_decimal(stack_size(self.pointer as int))
    }

    open spec fn spec_epilog(&self) -> Seq<char> {
        epilog_text()
    }

    fn proc_entry_exit3(&self, body: Vec<Instruction>) -> (subroutine: Subroutine) {
        let mut size = -self.pointer;
        if size % 16 != 0 {
            size = size - size % 16 + 16;
        }
        let mut prolog = self.name.to_string();
        prolog.append(":\n    push rbp\n    mov rbp, rsp\n    sub rsp, ");
        let digits = i64_to_string(size);
        prolog.append(digits.as_str());
        Subroutine { prolog, body, epilog: String::from_str("leave\n    ret") }
    }
}

/// Whether the instruction is a label.
pub fn is_label(instruction: &Instruction) -> (label: bool)
    ensures
        label == (instruction@ is Label),
{
    match instruction {
        Instruction::Label { .. } => true,
        _ => false,
    }
}

/// The first instruction that is no label lies at or before any position
/// that holds none.
pub proof fn lemma_first_operation_finds(instructions: Seq<InstructionView>, from: int, at: int)
    requires
        0 <= from <= at < instructions.len(),
        !(instructions[at] is Label),
    ensures
        from <= first_operation(instructions, from) <= at,
        !(instructions[first_operation(instructions, from)] is Label),
    decreases at - from,
{
    if instructions[from] is Label {
        lemma_first_operation_finds(instructions, from + 1, at);
    }
}

/// The instruction with the frame and stack pointers among what it writes.
fn add_destinations(instruction: &Instruction) -> (marked: Instruction)
    ensures
        marked@ == instruction@.with_operands(
            instruction@.destination() + seq![reg(RBP), reg(RSP)],
            instruction@.source(),
        ),
{
    let mut copy = instruction.copy();
    match copy {
        Instruction::Label { assembly, label } => Instruction::Label { assembly, label },
        Instruction::Move { assembly, destination, source } => {
            let mut destination = destination;
            destination.push(reg(RBP));
            destination.push(reg(RSP));
            let marked = Instruction::Move { assembly, destination, source };
            assert(marked@.destination() =~= instruction@.destination() + seq![reg(RBP), reg(RSP)]);
            marked
        },
        Instruction::Operation { assembly, destination, source, jump } => {
            let mut destination = destination;
            destination.push(reg(RBP));
            destination.push(reg(RSP));
            let marked = Instruction::Operation { assembly, destination, source, jump };
            assert(marked@.destination() =~= instruction@.destination() + seq![reg(RBP), reg(RSP)]);
            marked
        },
    }
}

/// The instruction with the frame and stack pointers among what it reads.
fn add_sources(instruction: &Instruction) -> (marked: Instruction)
    ensures
        marked@ == instruction@.with_operands(
            instruction@.destination(),
            instruction@.source() + seq![reg(RBP), reg(RSP)],
        ),
{
    let mut copy = instruction.copy();
    match copy {
        Instruction::Label { assembly, label } => Instruction::Label { assembly, label },
        Instruction::Move { assembly, destination, source } => {
            let mut source = source;
            source.push(reg(RBP));
            source.push(reg(RSP));
            let marked = Instruction::Move { assembly, destination, source };
            assert(marked@.source() =~= instruction@.source() + seq![reg(RBP), reg(RSP)]);
            marked
        },
        Instruction::Operation { assembly, destination, source, jump } => {
            let mut source = source;
            source.push(reg(RBP));
            source.push(reg(RSP));
            let marked = Instruction::Operation { assembly, destination, source, jump };
            assert(marked@.source() =~= instruction@.source() + seq![reg(RBP), reg(RSP)]);
            marked
        },
    }
}

/// The statements of a tree of sequences, in the order in which they run.
pub open spec fn flattened(statement: StatementView) -> Seq<StatementView>
    decreases statement,
{
    match statement {
        StatementView::Sequence(first, second) => flattened(*first) + flattened(*second),
        _ => seq![statement],
    }
}

/// Whether none of the statements is a sequence.
pub open spec fn all_simple(stms: Seq<StatementView>) -> bool {
    forall|i: int| 0 <= i < stms.len() ==> !(#[trigger] stms[i] is Sequence)
}

/// Statements that are no sequences, wrapped before a body, run before it.
pub proof fn lemma_wrap_before(start: Seq<StatementView>, body: StatementView)
    requires
        all_simple(start),
    ensures
        flattened(wrap_before(start, body)) == start + flattened(body),
    decreases start.len(),
{
    reveal_with_fuel(flattened, 3);
    if start.len() == 0 {
        assert(start + flattened(body) =~= flattened(body));
    } else {
        let last = start.last();
        let wrapped = StatementView::Sequence(Box::new(last), Box::new(body));
        assert(!(start[start.len() - 1] is Sequence));
        assert(flattened(wrapped) =~= seq![last] + flattened(body));
        assert(all_simple(start.drop_last())) by {
            assert forall|i: int| 0 <= i < start.drop_last().len() implies !(
            #[trigger] start.drop_last()[i] is Sequence) by {
                assert(start.drop_last()[i] == start[i]);
            }
        }
        lemma_wrap_before(start.drop_last(), wrapped);
        assert(start.drop_last() + (seq![last] + flattened(body)) =~= start + flattened(body));
    }
}

/// Statements that are no sequences, chained after a statement, run after
/// it.
pub proof fn lemma_chain_after(first: StatementView, end: Seq<StatementView>)
    requires
        all_simple(end),
    ensures
        flattened(chain_after(first, end)) == flattened(first) + end,
    decreases end.len(),
{
    reveal_with_fuel(flattened, 3);
    if end.len() == 0 {
        assert(flattened(first) + end =~= flattened(first));
    } else {
        assert(!(end[end.len() - 1] is Sequence));
        assert(all_simple(end.drop_last())) by {
            assert forall|i: int| 0 <= i < end.drop_last().len() implies !(
            #[trigger] end.drop_last()[i] is Sequence) by {
                assert(end.drop_last()[i] == end[i]);
            }
        }
        lemma_chain_after(first, end.drop_last());
        assert(flattened(first) + end.drop_last() + seq![end.last()] =~= flattened(first) + end);
    }
}

/// What wrapping a body does: the callee-saved registers are moved into
/// fresh temporaries, the formals are moved into place, the body runs, and
/// the callee-saved registers are moved back, each from the temporary it
/// was saved in.
pub proof fn lemma_entry_exit1(frame: X86_64, body: StatementView, gensym: Gensym)
    ensures
        flattened(frame.spec_entry_exit1(body, gensym)) == save_statements(gensym)
            + formal_statements(frame.formals@) + flattened(body) + seq![
            StatementView::Exp(ExpView::Const(0)),
        ] + restore_statements(gensym),
{
    reveal_with_fuel(flattened, 3);
    let start = save_statements(gensym) + formal_statements(frame.formals@);
    let end = restore_statements(gensym);
    assert(all_simple(start));
    assert(all_simple(end));
    lemma_wrap_before(start, body);
    lemma_chain_after(StatementView::Exp(ExpView::Const(0)), end);
    assert(flattened(frame.spec_entry_exit1(body, gensym)) =~= save_statements(gensym)
        + formal_statements(frame.formals@) + flattened(body) + seq![
        StatementView::Exp(ExpView::Const(0)),
    ] + restore_statements(gensym));
}

/// After the instructions are marked, the last of them reads every
/// callee-saved register, the return-value register and the stack pointer,
/// so that they are live to the end of the function; and the first that is
/// no label writes the frame pointer and the stack pointer.
pub proof fn lemma_mark_live(instructions: Seq<InstructionView>, index: int)
    requires
        0 <= index < 6,
    ensures
        mark_live(instructions).len() == instructions.len() + 1,
        mark_live(instructions).last().source().contains(callee_saved()[index]),
        mark_live(instructions).last().source().contains(reg(RAX)),
        mark_live(instructions).last().source().contains(reg(RSP)),
        ({
            let first = first_operation(instructions.push(sink()), 0);
            &&& 0 <= first < mark_live(instructions).len()
            &&& !(mark_live(instructions)[first] is Label)
            &&& mark_live(instructions)[first].destination().contains(reg(RBP))
            &&& mark_live(instructions)[first].destination().contains(reg(RSP))
        }),
{
    let with_sink = instructions.push(sink());
    lemma_first_operation_finds(with_sink, 0, with_sink.len() - 1);
    let first = first_operation(with_sink, 0);
    let opened = with_sink.update(
        first,
        with_sink[first].with_operands(
            with_sink[first].destination() + seq![reg(RBP), reg(RSP)],
            with_sink[first].source(),
        ),
    );
    let marked = mark_live(instructions);
    let read = marked.last().source();
    assert(read =~= callee_saved() + special() + seq![reg(RBP), reg(RSP)]);
    assert(read[index] == callee_saved()[index]);
    assert(read[6] == reg(RAX));
    assert(read[7] == reg(RSP));
    let written = marked[first].destination();
    let before = with_sink[first].destination();
    assert(written =~= before + seq![reg(RBP), reg(RSP)]);
    assert(written[before.len() as int] == reg(RBP));
    assert(written[before.len() as int + 1] == reg(RSP));
}

/// The stack size of a frame is a multiple of sixteen that holds the
/// frame's locals with less than sixteen bytes to spare, and is positive
/// if the frame has a local.
pub proof fn lemma_stack_size(pointer: int)
    requires
        pointer <= 0,
    ensures
        stack_size(pointer) % 16 == 0,
        -pointer <= stack_size(pointer) < -pointer + 16,
        pointer < 0 ==> stack_size(pointer) > 0,
{
}

} // verus!
