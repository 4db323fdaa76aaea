//! Instruction selection: the tree of one statement is covered with tiles,
//! the largest that fits first, and every tile becomes an instruction over
//! temporaries.

use vstd::prelude::*;
use vstd::string::*;
use crate::assem::{Instruction, InstructionView, instruction_views};
use crate::frame::x86_64::{
    argument_registers, caller_saved, reg, R10, R11, R8, R9, RAX, RCX, RDI, RDX, RSI, RSP,
};
use crate::ir::{BinOp, Exp, ExpView, RelationalOp, Statement, StatementView, exp_view, label_views, statement_view, copy_labels};
use crate::temp::{Gensym, Label, LabelView, Temp};
use crate::text::{decimal, i64_to_string, signed_decimal, u128_to_string};

verus! {

/// What selecting the instructions of an expression gives: the
/// instructions, the temporary that holds the value, and the last temporary
/// taken from the supply.
pub struct Munched {
    pub code: Seq<InstructionView>,
    pub temp: Temp,
    pub temps: int,
}

/// What selecting the instructions of a statement gives.
pub struct Emitted {
    pub code: Seq<InstructionView>,
    pub temps: int,
}

/// The temporary that the supply hands out after `temps`.
pub open spec fn fresh(temps: int) -> Temp {
    Temp { num: (temps + 1) as u32 }
}

/// An operation that falls through.
pub open spec fn operation(assembly: Seq<char>, destination: Seq<Temp>, source: Seq<Temp>) -> InstructionView {
    InstructionView::Operation { assembly, destination, source, jump: None }
}

/// An operation that branches.
pub open spec fn branch(assembly: Seq<char>, source: Seq<Temp>, targets: Seq<LabelView>) -> InstructionView {
    InstructionView::Operation {
        assembly,
        destination: Seq::empty(),
        source,
        jump: Some(targets),
    }
}

/// The template of a move between two temporaries.
pub open spec fn move_text() -> Seq<char> {
    "mov 'd0, 's0"@
}

/// A move between two temporaries.
pub open spec fn move_between(destination: Temp, source: Temp) -> InstructionView {
    InstructionView::Move {
        assembly: move_text(),
        destination: seq![destination],
        source: seq![source],
    }
}

/// The load of the word at `base + offset`.
pub open spec fn load_at(destination: Temp, base: Temp, offset: i64) -> InstructionView {
    operation(
        "mov 'd0, ['s0 + "@ + signed_decimal(offset as int) + "]"@,
        seq![destination],
        seq![base],
    )
}

/// The store of `value` to the word at `base + offset`.
pub open spec fn store_at(base: Temp, offset: i64, value: Temp) -> InstructionView {
    operation(
        "mov ['s0 + "@ + signed_decimal(offset as int) + "], 's1"@,
        Seq::empty(),
        seq![base, value],
    )
}

/// A sum with a constant on the right.
pub struct Sum {
    pub base: ExpView,
    pub offset: i64,
}

/// The expression and the constant of a sum with a constant on the right.
pub open spec fn plus_const(exp: ExpView) -> Option<Sum> {
    match exp {
        ExpView::BinOp { op: BinOp::Plus, left, right } => match *right {
            ExpView::Const(offset) => Some(Sum { base: *left, offset }),
            _ => None,
        },
        _ => None,
    }
}

/// The mnemonic of an operator that works on a register and an operand.
pub open spec fn mnemonic(op: BinOp) -> Seq<char> {
    match op {
        BinOp::Plus => "add 'd0, 's1"@,
        BinOp::Minus => "sub 'd0, 's1"@,
        BinOp::Mul => "imul 'd0, 's1"@,
        BinOp::And => "and 'd0, 's1"@,
        BinOp::Or => "or 'd0, 's1"@,
        BinOp::Xor => "xor 'd0, 's1"@,
        BinOp::ShiftLeft => "shl 'd0, cl"@,
        BinOp::ShiftRight => "shr 'd0, cl"@,
        BinOp::ArithmeticShiftRight => "sar 'd0, cl"@,
        BinOp::Div => "idiv 's0"@,
    }
}

/// Whether the operator is a shift, whose count must be in `rcx`.
pub open spec fn is_shift(op: BinOp) -> bool {
    op == BinOp::ShiftLeft || op == BinOp::ShiftRight || op == BinOp::ArithmeticShiftRight
}

/// The instructions of an operator applied to two values that are already
/// in temporaries: a division goes through `rax` and `rdx`, a shift takes
/// its count in `rcx`, anything else copies the left operand and works on
/// the copy.
pub open spec fn binop_code(op: BinOp, left: Temp, right: Temp, result: Temp) -> Seq<InstructionView> {
    if op == BinOp::Div {
        seq![
            move_between(reg(RAX), left),
            operation("cqo"@, seq![reg(RDX)], seq![reg(RAX)]),
            operation(mnemonic(op), seq![reg(RAX), reg(RDX)], seq![right, reg(RAX), reg(RDX)]),
            move_between(result, reg(RAX)),
        ]
    } else if is_shift(op) {
        seq![
            move_between(result, left),
            move_between(reg(RCX), right),
            operation(mnemonic(op), seq![result], seq![result, reg(RCX)]),
        ]
    } else {
        seq![
            move_between(result, left),
            operation(mnemonic(op), seq![result], seq![result, right]),
        ]
    }
}

/// The conditional jump of a comparison.
pub open spec fn jump_text(op: RelationalOp) -> Seq<char> {
    match op {
        RelationalOp::Equal => "je "@,
        RelationalOp::NotEqual => "jne "@,
        RelationalOp::LesserThan => "jl "@,
        RelationalOp::GreaterThan => "jg "@,
        RelationalOp::LesserOrEqual => "jle "@,
        RelationalOp::GreaterOrEqual => "jge "@,
        RelationalOp::UnsignedLesserThan => "jb "@,
        RelationalOp::UnsignedLesserOrEqual => "jbe "@,
        RelationalOp::UnsignedGreaterThan => "ja "@,
        RelationalOp::UnsignedGreaterOrEqual => "jae "@,
    }
}

/// The registers a call overwrites.
pub open spec fn call_defines() -> Seq<Temp> {
    caller_saved() + argument_registers() + seq![reg(RAX)]
}

/// The number of words that are added to the pushed arguments to keep the
/// stack aligned to sixteen bytes.
pub open spec fn padding(stack_arguments: int) -> int {
    if stack_arguments % 2 == 1 {
        1
    } else {
        0
    }
}

/// The instructions that hand the arguments over and make the call, once
/// the arguments' values are in `values`: the stack is padded, the
/// arguments from the seventh on are pushed from right to left, the first
/// six go to their registers, and after the call the stack is cleared.
pub open spec fn call_code(target: InstructionView, values: Seq<Temp>) -> Seq<InstructionView> {
    let count = values.len() as int;
    let in_registers = if count < 6 {
        count
    } else {
        6
    };
    let on_stack = count - in_registers;
    let pad = if padding(on_stack) == 1 {
        seq![operation("sub rsp, 8"@, seq![reg(RSP)], seq![reg(RSP)])]
    } else {
        Seq::empty()
    };
    let pushes = Seq::new(
        on_stack as nat,
        |j: int| operation("push 's0"@, seq![reg(RSP)], seq![values[count - 1 - j], reg(RSP)]),
    );
    let moves = Seq::new(
        in_registers as nat,
        |i: int| move_between(argument_registers()[i], values[i]),
    );
    let clear = if on_stack > 0 {
        seq![
            operation(
                "add rsp, "@ + decimal((8 * (on_stack + padding(on_stack))) as nat),
                seq![reg(RSP)],
                seq![reg(RSP)],
            ),
        ]
    } else {
        Seq::empty()
    };
    pad + pushes + moves + seq![target] + clear
}

/// The second component of the measure by which the selection ends.
pub open spec fn arguments_of(exp: ExpView) -> Seq<ExpView> {
    match exp {
        ExpView::Call(_, arguments) => arguments,
        _ => Seq::empty(),
    }
}

/// The instructions selected for an expression, with the temporary that
/// holds its value, when the supply's last temporary was `temps`.
pub open spec fn munch_exp(exp: ExpView, temps: int) -> Munched
    decreases exp, arguments_of(exp).len() + 1,
{
    match exp {
        ExpView::Const(value) => Munched {
            code: seq![
                operation("mov 'd0, "@ + signed_decimal(value as int), seq![fresh(temps)], Seq::empty()),
            ],
            temp: fresh(temps),
            temps: temps + 1,
        },
        ExpView::Error => Munched { code: Seq::empty(), temp: fresh(temps), temps: temps + 1 },
        ExpView::Name(label) => Munched {
            code: seq![operation("mov 'd0, "@ + label.text(), seq![fresh(temps)], Seq::empty())],
            temp: fresh(temps),
            temps: temps + 1,
        },
        ExpView::Temp(temp) => Munched { code: Seq::empty(), temp, temps },
        ExpView::BinOp { op, left, right } => {
            if op == BinOp::Plus && *right is Const {
                let base = munch_exp(*left, temps);
                Munched {
                    code: base.code.push(
                        operation(
                            "lea 'd0, ['s0 + "@ + signed_decimal((*right)->Const_0 as int) + "]"@,
                            seq![fresh(base.temps)],
                            seq![base.temp],
                        ),
                    ),
                    temp: fresh(base.temps),
                    temps: base.temps + 1,
                }
            } else {
                let first = munch_exp(*left, temps);
                let second = munch_exp(*right, first.temps);
                Munched {
                    code: first.code + second.code + binop_code(
                        op,
                        first.temp,
                        second.temp,
                        fresh(second.temps),
                    ),
                    temp: fresh(second.temps),
                    temps: second.temps + 1,
                }
            }
        },
        ExpView::Mem(address) => {
            if plus_const(*address) is Some {
                let base = munch_exp(plus_const(*address).unwrap().base, temps);
                Munched {
                    code: base.code.push(
                        load_at(fresh(base.temps), base.temp, plus_const(*address).unwrap().offset),
                    ),
                    temp: fresh(base.temps),
                    temps: base.temps + 1,
                }
            } else {
                let base = munch_exp(*address, temps);
                Munched {
                    code: base.code.push(
                        operation("mov 'd0, ['s0]"@, seq![fresh(base.temps)], seq![base.temp]),
                    ),
                    temp: fresh(base.temps),
                    temps: base.temps + 1,
                }
            }
        },
        ExpView::Call(function, arguments) => {
            let values = munch_args(exp, arguments.len(), temps);
            let used = if arguments.len() < 6 {
                arguments.len() as int
            } else {
                6
            };
            if *function is Name {
                Munched {
                    code: values.code + call_code(
                        operation(
                            "call "@ + (*function)->Name_0.text(),
                            call_defines(),
                            argument_registers().subrange(0, used),
                        ),
                        values.temps_used,
                    ),
                    temp: reg(RAX),
                    temps: values.temps,
                }
            } else {
                let target = munch_exp(*function, values.temps);
                Munched {
                    code: values.code + target.code + call_code(
                        operation(
                            "call 's0"@,
                            call_defines(),
                            seq![target.temp] + argument_registers().subrange(0, used),
                        ),
                        values.temps_used,
                    ),
                    temp: reg(RAX),
                    temps: target.temps,
                }
            }
        },
        ExpView::ExpSequence(statement, value) => {
            let first = munch_stm(*statement, temps);
            let second = munch_exp(*value, first.temps);
            Munched { code: first.code + second.code, temp: second.temp, temps: second.temps }
        },
    }
}

/// What selecting the instructions of a call's arguments gives.
pub struct MunchedArgs {
    pub code: Seq<InstructionView>,
    pub temps_used: Seq<Temp>,
    pub temps: int,
}

/// The instructions selected for the first `upto` arguments of a call, from
/// left to right, with the temporaries that hold their values.
pub open spec fn munch_args(call: ExpView, upto: nat, temps: int) -> MunchedArgs
    decreases call, upto,
{
    if upto == 0 || upto > arguments_of(call).len() {
        MunchedArgs { code: Seq::empty(), temps_used: Seq::empty(), temps }
    } else {
        let before = munch_args(call, (upto - 1) as nat, temps);
        let last = munch_exp(arguments_of(call)[upto - 1], before.temps);
        MunchedArgs {
            code: before.code + last.code,
            temps_used: before.temps_used.push(last.temp),
            temps: last.temps,
        }
    }
}

/// The instructions selected for a statement when the supply's last
/// temporary was `temps`.
pub open spec fn munch_stm(statement: StatementView, temps: int) -> Emitted
    decreases statement, 0nat,
{
    match statement {
        StatementView::Move(destination, source) => {
            match destination {
                ExpView::Temp(temp) => {
                    if source is Mem && plus_const(*source->Mem_0) is Some {
                        let base = munch_exp(plus_const(*source->Mem_0).unwrap().base, temps);
                        Emitted {
                            code: base.code.push(
                                load_at(temp, base.temp, plus_const(*source->Mem_0).unwrap().offset),
                            ),
                            temps: base.temps,
                        }
                    } else {
                        let value = munch_exp(source, temps);
                        Emitted {
                            code: value.code.push(move_between(temp, value.temp)),
                            temps: value.temps,
                        }
                    }
                },
                ExpView::Mem(address) => {
                    if plus_const(*address) is Some {
                        let base = munch_exp(plus_const(*address).unwrap().base, temps);
                        let value = munch_exp(source, base.temps);
                        Emitted {
                            code: (base.code + value.code).push(
                                store_at(base.temp, plus_const(*address).unwrap().offset, value.temp),
                            ),
                            temps: value.temps,
                        }
                    } else {
                        let base = munch_exp(*address, temps);
                        let value = munch_exp(source, base.temps);
                        Emitted {
                            code: (base.code + value.code).push(
                                operation(
                                    "mov ['s0], 's1"@,
                                    Seq::empty(),
                                    seq![base.temp, value.temp],
                                ),
                            ),
                            temps: value.temps,
                        }
                    }
                },
                _ => {
                    let value = munch_exp(source, temps);
                    Emitted { code: value.code, temps: value.temps }
                },
            }
        },
        StatementView::Exp(value) => {
            let value = munch_exp(value, temps);
            Emitted { code: value.code, temps: value.temps }
        },
        StatementView::Jump(target, labels) => {
            match target {
                ExpView::Name(label) => Emitted {
                    code: seq![branch("jmp "@ + label.text(), Seq::empty(), seq![label])],
                    temps,
                },
                _ => {
                    let value = munch_exp(target, temps);
                    Emitted {
                        code: value.code.push(branch("jmp 's0"@, seq![value.temp], labels)),
                        temps: value.temps,
                    }
                },
            }
        },
        StatementView::CondJump { op, left, right, true_label, false_label } => {
            let first = munch_exp(left, temps);
            let second = munch_exp(right, first.temps);
            Emitted {
                code: first.code + second.code + seq![
                    operation("cmp 's0, 's1"@, Seq::empty(), seq![first.temp, second.temp]),
                    branch(
                        jump_text(op) + true_label.text(),
                        Seq::empty(),
                        seq![true_label, false_label],
                    ),
                ],
                temps: second.temps,
            }
        },
        StatementView::Sequence(first, second) => {
            let first = munch_stm(*first, temps);
            let second = munch_stm(*second, first.temps);
            Emitted { code: first.code + second.code, temps: second.temps }
        },
        StatementView::Label(label) => Emitted {
            code: seq![InstructionView::Label { assembly: label.text() + ":"@, label }],
            temps,
        },
    }
}

/// Selecting instructions takes temporaries from the supply and gives
/// none back.
pub proof fn lemma_munch_exp_grows(exp: ExpView, temps: int)
    ensures
        munch_exp(exp, temps).temps >= temps,
    decreases exp, arguments_of(exp).len() + 1,
{
    match exp {
        ExpView::BinOp { op, left, right } => {
            lemma_munch_exp_grows(*left, temps);
            lemma_munch_exp_grows(*right, munch_exp(*left, temps).temps);
        },
        ExpView::Mem(address) => {
            if plus_const(*address) is Some {
                lemma_munch_exp_grows(plus_const(*address).unwrap().base, temps);
            } else {
                lemma_munch_exp_grows(*address, temps);
            }
        },
        ExpView::Call(function, arguments) => {
            lemma_munch_args_grows(exp, arguments.len(), temps);
            lemma_munch_exp_grows(*function, munch_args(exp, arguments.len(), temps).temps);
        },
        ExpView::ExpSequence(statement, value) => {
            lemma_munch_stm_grows(*statement, temps);
            lemma_munch_exp_grows(*value, munch_stm(*statement, temps).temps);
        },
        _ => {},
    }
}

/// Selecting the instructions of a call's arguments takes temporaries from
/// the supply and gives none back, and yields one temporary for each
/// argument.
pub proof fn lemma_munch_args_grows(call: ExpView, upto: nat, temps: int)
    ensures
        munch_args(call, upto, temps).temps >= temps,
        upto <= arguments_of(call).len() ==> munch_args(call, upto, temps).temps_used.len() == upto,
    decreases call, upto,
{
    if upto == 0 || upto > arguments_of(call).len() {
    } else {
        lemma_munch_args_grows(call, (upto - 1) as nat, temps);
        lemma_munch_exp_grows(
            arguments_of(call)[upto - 1],
            munch_args(call, (upto - 1) as nat, temps).temps,
        );
    }
}

/// Selecting the instructions of a statement takes temporaries from the
/// supply and gives none back.
pub proof fn lemma_munch_stm_grows(statement: StatementView, temps: int)
    ensures
        munch_stm(statement, temps).temps >= temps,
    decreases statement, 0nat,
{
    match statement {
        StatementView::Move(destination, source) => {
            match destination {
                ExpView::Temp(temp) => {
                    if source is Mem && plus_const(*source->Mem_0) is Some {
                        lemma_munch_exp_grows(plus_const(*source->Mem_0).unwrap().base, temps);
                    } else {
                        lemma_munch_exp_grows(source, temps);
                    }
                },
                ExpView::Mem(address) => {
                    if plus_const(*address) is Some {
                        let base = plus_const(*address).unwrap().base;
                        lemma_munch_exp_grows(base, temps);
                        lemma_munch_exp_grows(source, munch_exp(base, temps).temps);
                    } else {
                        lemma_munch_exp_grows(*address, temps);
                        lemma_munch_exp_grows(source, munch_exp(*address, temps).temps);
                    }
                },
                _ => {
                    lemma_munch_exp_grows(source, temps);
                },
            }
        },
        StatementView::Exp(value) => {
            lemma_munch_exp_grows(value, temps);
        },
        StatementView::Jump(target, labels) => {
            lemma_munch_exp_grows(target, temps);
        },
        StatementView::CondJump { op, left, right, true_label, false_label } => {
            lemma_munch_exp_grows(left, temps);
            lemma_munch_exp_grows(right, munch_exp(left, temps).temps);
        },
        StatementView::Sequence(first, second) => {
            lemma_munch_stm_grows(*first, temps);
            lemma_munch_stm_grows(*second, munch_stm(*first, temps).temps);
        },
        StatementView::Label(label) => {},
    }
}

/// The text of two pieces, one after the other.
pub fn join(first: &str, second: &str) -> (text: String)
    ensures
        text@ == first@ + second@,
{
    let mut text = String::from_str(first);
    text.append(second);
    text
}

/// The text of three pieces, one after the other.
pub fn join3(first: &str, second: &str, third: &str) -> (text: String)
    ensures
        text@ == first@ + second@ + third@,
{
    let mut text = String::from_str(first);
    text.append(second);
    text.append(third);
    text
}

/// An operation that falls through.
pub fn make_operation(assembly: String, destination: Vec<Temp>, source: Vec<Temp>) -> (instruction:
    Instruction)
    ensures
        instruction@ == operation(assembly@, destination@, source@),
{
    Instruction::Operation { assembly, destination, source, jump: None }
}

/// An operation that branches.
pub fn make_branch(assembly: String, source: Vec<Temp>, targets: Vec<Label>) -> (instruction:
    Instruction)
    ensures
        instruction@ == branch(assembly@, source@, label_views(targets@)),
{
    Instruction::Operation { assembly, destination: Vec::new(), source, jump: Some(targets) }
}

/// A move between two temporaries.
pub fn make_move(destination: Temp, source: Temp) -> (instruction: Instruction)
    ensures
        instruction@ == move_between(destination, source),
{
    let instruction = Instruction::Move {
        assembly: String::from_str("mov 'd0, 's0"),
        destination: vec![destination],
        source: vec![source],
    };
    assert(instruction@.destination() =~= seq![destination]);
    assert(instruction@.source() =~= seq![source]);
    instruction
}

/// The load of the word at `base + offset`.
pub fn make_load(destination: Temp, base: Temp, offset: i64) -> (instruction: Instruction)
    ensures
        instruction@ == load_at(destination, base, offset),
{
    let digits = i64_to_string(offset);
    let destinations = vec![destination];
    let sources = vec![base];
    assert(destinations@ =~= seq![destination]);
    assert(sources@ =~= seq![base]);
    make_operation(join3("mov 'd0, ['s0 + ", digits.as_str(), "]"), destinations, sources)
}

/// The store of `value` to the word at `base + offset`.
pub fn make_store(base: Temp, offset: i64, value: Temp) -> (instruction: Instruction)
    ensures
        instruction@ == store_at(base, offset, value),
{
    let digits = i64_to_string(offset);
    let sources = vec![base, value];
    assert(sources@ =~= seq![base, value]);
    make_operation(join3("mov ['s0 + ", digits.as_str(), "], 's1"), Vec::new(), sources)
}

/// The base and the constant of a sum with a constant on the right.
fn as_plus_const(exp: &Exp) -> (sum: Option<(&Exp, i64)>)
    ensures
        match sum {
            Some(pair) => plus_const(exp@) == Some(Sum { base: pair.0@, offset: pair.1 })
                && decreases_to!(exp => pair.0),
            None => plus_const(exp@) is None,
        },
{
    proof {
        reveal_with_fuel(exp_view, 3);
    }
    match exp {
        Exp::BinOp { op, left, right } => {
            match op {
                BinOp::Plus => match &**right {
                    Exp::Const(offset) => Some((&**left, *offset)),
                    _ => None,
                },
                _ => None,
            }
        },
        _ => None,
    }
}

/// The template of an operator.
fn mnemonic_text(op: BinOp) -> (text: &'static str)
    ensures
        text@ == mnemonic(op),
{
    match op {
        BinOp::Plus => "add 'd0, 's1",
        BinOp::Minus => "sub 'd0, 's1",
        BinOp::Mul => "imul 'd0, 's1",
        BinOp::And => "and 'd0, 's1",
        BinOp::Or => "or 'd0, 's1",
        BinOp::Xor => "xor 'd0, 's1",
        BinOp::ShiftLeft => "shl 'd0, cl",
        BinOp::ShiftRight => "shr 'd0, cl",
        BinOp::ArithmeticShiftRight => "sar 'd0, cl",
        BinOp::Div => "idiv 's0",
    }
}

/// The conditional jump of a comparison.
fn conditional_jump(op: RelationalOp) -> (text: &'static str)
    ensures
        text@ == jump_text(op),
{
    match op {
        RelationalOp::Equal => "je ",
        RelationalOp::NotEqual => "jne ",
        RelationalOp::LesserThan => "jl ",
        RelationalOp::GreaterThan => "jg ",
        RelationalOp::LesserOrEqual => "jle ",
        RelationalOp::GreaterOrEqual => "jge ",
        RelationalOp::UnsignedLesserThan => "jb ",
        RelationalOp::UnsignedLesserOrEqual => "jbe ",
        RelationalOp::UnsignedGreaterThan => "ja ",
        RelationalOp::UnsignedGreaterOrEqual => "jae ",
    }
}

/// The instruction selector: the instructions emitted so far.
pub struct Gen {
    pub instructions: Vec<Instruction>,
}

impl Gen {
    /// The instructions emitted so far.
    pub open spec fn code(&self) -> Seq<InstructionView> {
        instruction_views(self.instructions@)
    }

    /// A selector that has emitted nothing.
    pub fn new() -> (gen: Gen)
        ensures
            gen.code() == Seq::<InstructionView>::empty(),
    {
        let gen = Gen { instructions: Vec::new() };
        assert(gen.code() =~= Seq::<InstructionView>::empty());
        gen
    }

    /// Adds an instruction at the end.
    pub fn emit(&mut self, instruction: Instruction)
        ensures
            final(self).code() == old(self).code().push(instruction@),
            final(self).instructions@ == old(self).instructions@.push(instruction),
    {
        self.instructions.push(instruction);
        assert(self.code() =~= old(self).code().push(instruction@));
    }

    /// The instructions emitted, in order.
    pub fn get_result(self) -> (instructions: Vec<Instruction>)
        ensures
            instruction_views(instructions@) == self.code(),
            instructions == self.instructions,
    {
        self.instructions
    }

    /// Emits the instructions of an operator applied to two temporaries.
    fn emit_binop(&mut self, op: BinOp, left: Temp, right: Temp, result: Temp)
        ensures
            final(self).code() == old(self).code() + binop_code(op, left, right, result),
    {
        match op {
            BinOp::Div => {
                self.emit(make_move(reg(RAX), left));
                let destinations = vec![reg(RDX)];
                let sources = vec![reg(RAX)];
                assert(destinations@ =~= seq![reg(RDX)]);
                assert(sources@ =~= seq![reg(RAX)]);
                self.emit(make_operation(String::from_str("cqo"), destinations, sources));
                let destinations = vec![reg(RAX), reg(RDX)];
                let sources = vec![right, reg(RAX), reg(RDX)];
                assert(destinations@ =~= seq![reg(RAX), reg(RDX)]);
                assert(sources@ =~= seq![right, reg(RAX), reg(RDX)]);
                self.emit(
                    make_operation(String::from_str(mnemonic_text(op)), destinations, sources),
                );
                self.emit(make_move(result, reg(RAX)));
                assert(self.code() =~= old(self).code() + binop_code(op, left, right, result));
            },
            BinOp::ShiftLeft | BinOp::ShiftRight | BinOp::ArithmeticShiftRight => {
                self.emit(make_move(result, left));
                self.emit(make_move(reg(RCX), right));
                let destinations = vec![result];
                let sources = vec![result, reg(RCX)];
                assert(destinations@ =~= seq![result]);
                assert(sources@ =~= seq![result, reg(RCX)]);
                self.emit(
                    make_operation(String::from_str(mnemonic_text(op)), destinations, sources),
                );
                assert(self.code() =~= old(self).code() + binop_code(op, left, right, result));
            },
            _ => {
                self.emit(make_move(result, left));
                let destinations = vec![result];
                let sources = vec![result, right];
                assert(destinations@ =~= seq![result]);
                assert(sources@ =~= seq![result, right]);
                self.emit(
                    make_operation(String::from_str(mnemonic_text(op)), destinations, sources),
                );
                assert(self.code() =~= old(self).code() + binop_code(op, left, right, result));
            },
        }
    }

    /// Emits what hands the arguments over and makes the call.
    fn emit_call(&mut self, target: Instruction, values: &Vec<Temp>)
        ensures
            final(self).code() == old(self).code() + call_code(target@, values@),
    {
        let count = values.len();
        let in_registers: usize = if count < 6 {
            count
        } else {
            6
        };
        let on_stack: usize = count - in_registers;
        let ghost start = self.code();
        let ghost pad = if padding(on_stack as int) == 1 {
            seq![operation("sub rsp, 8"@, seq![reg(RSP)], seq![reg(RSP)])]
        } else {
            Seq::<InstructionView>::empty()
        };
        if on_stack % 2 == 1 {
            let destinations = vec![reg(RSP)];
            let sources = vec![reg(RSP)];
            assert(destinations@ =~= seq![reg(RSP)]);
            assert(sources@ =~= seq![reg(RSP)]);
            self.emit(make_operation(String::from_str("sub rsp, 8"), destinations, sources));
        }
        assert(self.code() =~= start + pad);
        let ghost pushes = Seq::new(
            on_stack as nat,
            |j: int|
                operation("push 's0"@, seq![reg(RSP)], seq![values@[count - 1 - j], reg(RSP)]),
        );
        let mut pushed: usize = 0;
        while pushed < on_stack
            invariant
                pushed <= on_stack,
                on_stack + in_registers == count,
                count == values@.len(),
                self.code() == start + pad + pushes.subrange(0, pushed as int),
                pushes == Seq::new(
                    on_stack as nat,
                    |j: int|
                        operation(
                            "push 's0"@,
                            seq![reg(RSP)],
                            seq![values@[count - 1 - j], reg(RSP)],
                        ),
                ),
            decreases on_stack - pushed,
        {
            let destinations = vec![reg(RSP)];
            let value = values[count - 1 - pushed];
            let sources = vec![value, reg(RSP)];
            assert(destinations@ =~= seq![reg(RSP)]);
            assert(sources@ =~= seq![value, reg(RSP)]);
            self.emit(make_operation(String::from_str("push 's0"), destinations, sources));
            assert(self.code() =~= start + pad + pushes.subrange(0, pushed + 1));
            pushed = pushed + 1;
        }
        assert(pushes.subrange(0, on_stack as int) =~= pushes);
        let registers = vec![reg(RDI), reg(RSI), reg(RDX), reg(RCX), reg(R8), reg(R9)];
        assert(registers@ =~= argument_registers());
        let ghost moves = Seq::new(
            in_registers as nat,
            |i: int| move_between(argument_registers()[i], values@[i]),
        );
        let mut moved: usize = 0;
        while moved < in_registers
            invariant
                moved <= in_registers <= 6,
                in_registers <= values@.len(),
                registers@ == argument_registers(),
                self.code() == start + pad + pushes + moves.subrange(0, moved as int),
                moves == Seq::new(
                    in_registers as nat,
                    |i: int| move_between(argument_registers()[i], values@[i]),
                ),
            decreases in_registers - moved,
        {
            self.emit(make_move(registers[moved], values[moved]));
            assert(self.code() =~= start + pad + pushes + moves.subrange(0, moved + 1));
            moved = moved + 1;
        }
        assert(moves.subrange(0, in_registers as int) =~= moves);
        self.emit(target);
        if on_stack > 0 {
            let bytes: u128 = 8 * (on_stack as u128 + (on_stack % 2) as u128);
            let digits = u128_to_string(bytes);
            let destinations = vec![reg(RSP)];
            let sources = vec![reg(RSP)];
            assert(destinations@ =~= seq![reg(RSP)]);
            assert(sources@ =~= seq![reg(RSP)]);
            self.emit(make_operation(join("add rsp, ", digits.as_str()), destinations, sources));
        }
        assert(self.code() =~= start + call_code(target@, values@));
    }

    /// Selects the instructions of the first `upto` arguments of a call and
    /// gives the temporaries that hold their values.
    fn munch_arguments(&mut self, call: &Exp, upto: usize, gensym: &mut Gensym) -> (values: Vec<
        Temp,
    >)
        requires
            call is Call,
            upto <= arguments_of(call@).len(),
            munch_args(call@, upto as nat, old(gensym).temps as int).temps <= u32::MAX,
        ensures
            final(self).code() == old(self).code() + munch_args(
                call@,
                upto as nat,
                old(gensym).temps as int,
            ).code,
            values@ == munch_args(call@, upto as nat, old(gensym).temps as int).temps_used,
            *final(gensym) == (Gensym {
                temps: munch_args(call@, upto as nat, old(gensym).temps as int).temps as u32,
                ..*old(gensym)
            }),
        decreases call, upto,
    {
        proof {
            reveal_with_fuel(exp_view, 2);
        }
        if upto == 0 {
            assert(self.code() =~= old(self).code() + Seq::<InstructionView>::empty());
            Vec::new()
        } else {
            let ghost start = gensym.temps as int;
            proof {
                lemma_munch_args_grows(call@, (upto - 1) as nat, start);
                lemma_munch_exp_grows(
                    arguments_of(call@)[upto - 1],
                    munch_args(call@, (upto - 1) as nat, start).temps,
                );
            }
            let mut values = self.munch_arguments(call, upto - 1, gensym);
            match call {
                Exp::Call(function, arguments) => {
                    proof {
                        vstd::std_specs::vec::axiom_vec_index_decreases(*arguments, upto - 1);
                    }
                    let value = self.munch_expression(&arguments[upto - 1], gensym);
                    values.push(value);
                },
                _ => {},
            }
            assert(self.code() =~= old(self).code() + munch_args(call@, upto as nat, start).code);
            values
        }
    }

    /// Selects the instructions of a constant, a name, a temporary or the
    /// mark of an error.
    fn munch_leaf(&mut self, exp: &Exp, gensym: &mut Gensym) -> (temp: Temp)
        requires
            exp is Const || exp is Error || exp is Name || exp is Temp,
            munch_exp(exp@, old(gensym).temps as int).temps <= u32::MAX,
        ensures
            final(self).code() == old(self).code() + munch_exp(
                exp@,
                old(gensym).temps as int,
            ).code,
            temp == munch_exp(exp@, old(gensym).temps as int).temp,
            *final(gensym) == (Gensym {
                temps: munch_exp(exp@, old(gensym).temps as int).temps as u32,
                ..*old(gensym)
            }),
    {
        let ghost start = gensym.temps as int;
        proof {
            reveal_with_fuel(exp_view, 2);
        }
        match exp {
            Exp::Const(value) => {
                let temp = Temp::new(gensym);
                let digits = i64_to_string(*value);
                let destinations = vec![temp];
                assert(destinations@ =~= seq![temp]);
                self.emit(
                    make_operation(join("mov 'd0, ", digits.as_str()), destinations, Vec::new()),
                );
                assert(self.code() =~= old(self).code() + munch_exp(exp@, start).code);
                temp
            },
            Exp::Name(label) => {
                let temp = Temp::new(gensym);
                let name = label.to_string();
                let destinations = vec![temp];
                assert(destinations@ =~= seq![temp]);
                self.emit(
                    make_operation(join("mov 'd0, ", name.as_str()), destinations, Vec::new()),
                );
                assert(self.code() =~= old(self).code() + munch_exp(exp@, start).code);
                temp
            },
            Exp::Temp(temp) => {
                assert(self.code() =~= old(self).code() + munch_exp(exp@, start).code);
                *temp
            },
            _ => {
                assert(self.code() =~= old(self).code() + munch_exp(exp@, start).code);
                Temp::new(gensym)
            },
        }
    }

    /// Selects the instructions of an operator applied to two expressions.
    fn munch_binop(&mut self, exp: &Exp, gensym: &mut Gensym) -> (temp: Temp)
        requires
            exp is BinOp,
            munch_exp(exp@, old(gensym).temps as int).temps <= u32::MAX,
        ensures
            final(self).code() == old(self).code() + munch_exp(
                exp@,
                old(gensym).temps as int,
            ).code,
            temp == munch_exp(exp@, old(gensym).temps as int).temp,
            *final(gensym) == (Gensym {
                temps: munch_exp(exp@, old(gensym).temps as int).temps as u32,
                ..*old(gensym)
            }),
        decreases exp, 0nat,
    {
        let ghost start = gensym.temps as int;
        proof {
            reveal_with_fuel(exp_view, 3);
        }
        match exp {
            Exp::BinOp { op, left, right } => {
                proof {
                    lemma_munch_exp_grows(left@, start);
                    lemma_munch_exp_grows(right@, munch_exp(left@, start).temps);
                }
                match as_plus_const(exp) {
                    Some(pair) => {
                        assert(pair.0@ == left@);
                        let base = self.munch_expression(left, gensym);
                        let temp = Temp::new(gensym);
                        let digits = i64_to_string(pair.1);
                        let destinations = vec![temp];
                        let sources = vec![base];
                        assert(destinations@ =~= seq![temp]);
                        assert(sources@ =~= seq![base]);
                        self.emit(
                            make_operation(
                                join3("lea 'd0, ['s0 + ", digits.as_str(), "]"),
                                destinations,
                                sources,
                            ),
                        );
                        assert(self.code() =~= old(self).code() + munch_exp(exp@, start).code);
                        temp
                    },
                    None => {
                        let first = self.munch_expression(left, gensym);
                        let second = self.munch_expression(right, gensym);
                        let temp = Temp::new(gensym);
                        self.emit_binop(*op, first, second, temp);
                        assert(self.code() =~= old(self).code() + munch_exp(exp@, start).code);
                        temp
                    },
                }
            },
            _ => reg(RAX),
        }
    }

    /// Selects the instructions of a load.
    fn munch_mem(&mut self, exp: &Exp, gensym: &mut Gensym) -> (temp: Temp)
        requires
            exp is Mem,
            munch_exp(exp@, old(gensym).temps as int).temps <= u32::MAX,
        ensures
            final(self).code() == old(self).code() + munch_exp(
                exp@,
                old(gensym).temps as int,
            ).code,
            temp == munch_exp(exp@, old(gensym).temps as int).temp,
            *final(gensym) == (Gensym {
                temps: munch_exp(exp@, old(gensym).temps as int).temps as u32,
                ..*old(gensym)
            }),
        decreases exp, 0nat,
    {
        let ghost start = gensym.temps as int;
        proof {
            reveal_with_fuel(exp_view, 2);
        }
        match exp {
            Exp::Mem(address) => {
                match as_plus_const(address) {
                    Some(pair) => {
                        proof {
                            lemma_munch_exp_grows(pair.0@, start);
                        }
                        let base = self.munch_expression(pair.0, gensym);
                        let temp = Temp::new(gensym);
                        self.emit(make_load(temp, base, pair.1));
                        assert(self.code() =~= old(self).code() + munch_exp(exp@, start).code);
                        temp
                    },
                    None => {
                        proof {
                            lemma_munch_exp_grows(address@, start);
                        }
                        let base = self.munch_expression(address, gensym);
                        let temp = Temp::new(gensym);
                        let destinations = vec![temp];
                        let sources = vec![base];
                        assert(destinations@ =~= seq![temp]);
                        assert(sources@ =~= seq![base]);
                        self.emit(
                            make_operation(String::from_str("mov 'd0, ['s0]"), destinations, sources),
                        );
                        assert(self.code() =~= old(self).code() + munch_exp(exp@, start).code);
                        temp
                    },
                }
            },
            _ => reg(RAX),
        }
    }

    /// Selects the instructions of a call.
    fn munch_call(&mut self, exp: &Exp, gensym: &mut Gensym) -> (temp: Temp)
        requires
            exp is Call,
            munch_exp(exp@, old(gensym).temps as int).temps <= u32::MAX,
        ensures
            final(self).code() == old(self).code() + munch_exp(
                exp@,
                old(gensym).temps as int,
            ).code,
            temp == munch_exp(exp@, old(gensym).temps as int).temp,
            *final(gensym) == (Gensym {
                temps: munch_exp(exp@, old(gensym).temps as int).temps as u32,
                ..*old(gensym)
            }),
        decreases exp, arguments_of(exp@).len() + 1,
    {
        let ghost start = gensym.temps as int;
        proof {
            reveal_with_fuel(exp_view, 2);
        }
        match exp {
            Exp::Call(function, arguments) => {
                proof {
                    lemma_munch_args_grows(exp@, arguments@.len(), start);
                    lemma_munch_exp_grows(
                        function@,
                        munch_args(exp@, arguments@.len(), start).temps,
                    );
                }
                let values = self.munch_arguments(exp, arguments.len(), gensym);
                let used: usize = if arguments.len() < 6 {
                    arguments.len()
                } else {
                    6
                };
                let registers = vec![reg(RDI), reg(RSI), reg(RDX), reg(RCX), reg(R8), reg(R9)];
                assert(registers@ =~= argument_registers());
                let defines = vec![
                    reg(R10),
                    reg(R11),
                    reg(RDI),
                    reg(RSI),
                    reg(RDX),
                    reg(RCX),
                    reg(R8),
                    reg(R9),
                    reg(RAX),
                ];
                assert(defines@ =~= call_defines());
                let mut sources: Vec<Temp> = Vec::new();
                let name = match &**function {
                    Exp::Name(label) => join("call ", label.to_string().as_str()),
                    _ => {
                        let address = self.munch_expression(function, gensym);
                        sources.push(address);
                        String::from_str("call 's0")
                    },
                };
                let ghost first = sources@;
                let mut index: usize = 0;
                assert(sources@ =~= first + argument_registers().subrange(0, 0));
                while index < used
                    invariant
                        index <= used <= 6,
                        registers@ == argument_registers(),
                        sources@ == first + argument_registers().subrange(0, index as int),
                    decreases used - index,
                {
                    sources.push(registers[index]);
                    assert(sources@ =~= first + argument_registers().subrange(0, index + 1));
                    index = index + 1;
                }
                assert(first.len() == 0 ==> sources@ =~= argument_registers().subrange(
                    0,
                    used as int,
                ));
                let target = make_operation(name, defines, sources);
                self.emit_call(target, &values);
                assert(self.code() =~= old(self).code() + munch_exp(exp@, start).code);
                reg(RAX)
            },
            _ => reg(RAX),
        }
    }

    /// Selects the instructions that compute an expression and gives the
    /// temporary that holds its value.
    pub fn munch_expression(&mut self, exp: &Exp, gensym: &mut Gensym) -> (temp: Temp)
        requires
            munch_exp(exp@, old(gensym).temps as int).temps <= u32::MAX,
        ensures
            final(self).code() == old(self).code() + munch_exp(
                exp@,
                old(gensym).temps as int,
            ).code,
            temp == munch_exp(exp@, old(gensym).temps as int).temp,
            *final(gensym) == (Gensym {
                temps: munch_exp(exp@, old(gensym).temps as int).temps as u32,
                ..*old(gensym)
            }),
        decreases exp, arguments_of(exp@).len() + 2,
    {
        let ghost start = gensym.temps as int;
        match exp {
            Exp::BinOp { .. } => self.munch_binop(exp, gensym),
            Exp::Mem(_) => self.munch_mem(exp, gensym),
            Exp::Call(_, _) => self.munch_call(exp, gensym),
            Exp::ExpSequence(statement, value) => {
                proof {
                    reveal_with_fuel(exp_view, 2);
                    lemma_munch_stm_grows(statement@, start);
                    lemma_munch_exp_grows(value@, munch_stm(statement@, start).temps);
                }
                self.munch_statement(statement, gensym);
                let temp = self.munch_expression(value, gensym);
                assert(self.code() =~= old(self).code() + munch_exp(exp@, start).code);
                temp
            },
            _ => self.munch_leaf(exp, gensym),
        }
    }

    /// Selects the instructions of a move into a temporary or into memory.
    fn munch_move(&mut self, statement: &Statement, gensym: &mut Gensym)
        requires
            statement is Move,
            munch_stm(statement@, old(gensym).temps as int).temps <= u32::MAX,
        ensures
            final(self).code() == old(self).code() + munch_stm(
                statement@,
                old(gensym).temps as int,
            ).code,
            *final(gensym) == (Gensym {
                temps: munch_stm(statement@, old(gensym).temps as int).temps as u32,
                ..*old(gensym)
            }),
        decreases statement, 0nat,
    {
        let ghost start = gensym.temps as int;
        proof {
            reveal_with_fuel(exp_view, 2);
            reveal_with_fuel(statement_view, 2);
        }
        match statement {
            Statement::Move(destination, source) => {
                match destination {
                    Exp::Temp(temp) => {
                        let direct = match source {
                            Exp::Mem(address) => as_plus_const(address),
                            _ => None,
                        };
                        match direct {
                            Some(pair) => {
                                let base = self.munch_expression(pair.0, gensym);
                                self.emit(make_load(*temp, base, pair.1));
                            },
                            None => {
                                let value = self.munch_expression(source, gensym);
                                self.emit(make_move(*temp, value));
                            },
                        }
                        assert(self.code() =~= old(self).code() + munch_stm(statement@, start).code);
                    },
                    Exp::Mem(address) => {
                        match as_plus_const(address) {
                            Some(pair) => {
                                proof {
                                    lemma_munch_exp_grows(pair.0@, start);
                                    lemma_munch_exp_grows(source@, munch_exp(pair.0@, start).temps);
                                }
                                let base = self.munch_expression(pair.0, gensym);
                                let value = self.munch_expression(source, gensym);
                                self.emit(make_store(base, pair.1, value));
                            },
                            None => {
                                proof {
                                    lemma_munch_exp_grows(address@, start);
                                    lemma_munch_exp_grows(source@, munch_exp(address@, start).temps);
                                }
                                let base = self.munch_expression(address, gensym);
                                let value = self.munch_expression(source, gensym);
                                let sources = vec![base, value];
                                assert(sources@ =~= seq![base, value]);
                                self.emit(
                                    make_operation(
                                        String::from_str("mov ['s0], 's1"),
                                        Vec::new(),
                                        sources,
                                    ),
                                );
                            },
                        }
                        assert(self.code() =~= old(self).code() + munch_stm(statement@, start).code);
                    },
                    _ => {
                        self.munch_expression(source, gensym);
                    },
                }
            },
            _ => {},
        }
    }

    /// Selects the instructions of a jump, conditional or not.
    fn munch_jump(&mut self, statement: &Statement, gensym: &mut Gensym)
        requires
            statement is Jump || statement is CondJump,
            munch_stm(statement@, old(gensym).temps as int).temps <= u32::MAX,
        ensures
            final(self).code() == old(self).code() + munch_stm(
                statement@,
                old(gensym).temps as int,
            ).code,
            *final(gensym) == (Gensym {
                temps: munch_stm(statement@, old(gensym).temps as int).temps as u32,
                ..*old(gensym)
            }),
        decreases statement, 0nat,
    {
        let ghost start = gensym.temps as int;
        proof {
            reveal_with_fuel(exp_view, 2);
            reveal_with_fuel(statement_view, 2);
        }
        match statement {
            Statement::Jump(target, labels) => {
                match target {
                    Exp::Name(label) => {
                        let name = label.to_string();
                        let targets = vec![label.copy()];
                        assert(label_views(targets@) =~= seq![label@]);
                        self.emit(make_branch(join("jmp ", name.as_str()), Vec::new(), targets));
                        assert(self.code() =~= old(self).code() + munch_stm(statement@, start).code);
                    },
                    _ => {
                        let value = self.munch_expression(target, gensym);
                        let sources = vec![value];
                        assert(sources@ =~= seq![value]);
                        self.emit(
                            make_branch(String::from_str("jmp 's0"), sources, copy_labels(labels)),
                        );
                        assert(self.code() =~= old(self).code() + munch_stm(statement@, start).code);
                    },
                }
            },
            Statement::CondJump { op, left, right, true_label, false_label } => {
                proof {
                    lemma_munch_exp_grows(left@, start);
                    lemma_munch_exp_grows(right@, munch_exp(left@, start).temps);
                }
                let first = self.munch_expression(left, gensym);
                let second = self.munch_expression(right, gensym);
                let sources = vec![first, second];
                assert(sources@ =~= seq![first, second]);
                self.emit(make_operation(String::from_str("cmp 's0, 's1"), Vec::new(), sources));
                let name = true_label.to_string();
                let targets = vec![true_label.copy(), false_label.copy()];
                assert(label_views(targets@) =~= seq![true_label@, false_label@]);
                self.emit(
                    make_branch(join(conditional_jump(*op), name.as_str()), Vec::new(), targets),
                );
                assert(self.code() =~= old(self).code() + munch_stm(statement@, start).code);
            },
            _ => {},
        }
    }

    /// Selects the instructions of a statement.
    pub fn munch_statement(&mut self, statement: &Statement, gensym: &mut Gensym)
        requires
            munch_stm(statement@, old(gensym).temps as int).temps <= u32::MAX,
        ensures
            final(self).code() == old(self).code() + munch_stm(
                statement@,
                old(gensym).temps as int,
            ).code,
            *final(gensym) == (Gensym {
                temps: munch_stm(statement@, old(gensym).temps as int).temps as u32,
                ..*old(gensym)
            }),
        decreases statement, 1nat,
    {
        let ghost start = gensym.temps as int;
        proof {
            reveal_with_fuel(statement_view, 2);
        }
        match statement {
            Statement::Move(_, _) => self.munch_move(statement, gensym),
            Statement::Exp(value) => {
                self.munch_expression(value, gensym);
            },
            Statement::Jump(_, _) => self.munch_jump(statement, gensym),
            Statement::CondJump { .. } => self.munch_jump(statement, gensym),
            Statement::Sequence(first, second) => {
                proof {
                    lemma_munch_stm_grows(first@, start);
                    lemma_munch_stm_grows(second@, munch_stm(first@, start).temps);
                }
                self.munch_statement(first, gensym);
                self.munch_statement(second, gensym);
                assert(self.code() =~= old(self).code() + munch_stm(statement@, start).code);
            },
            Statement::Label(label) => {
                let name = label.to_string();
                self.emit(
                    Instruction::Label { assembly: join(name.as_str(), ":"), label: label.copy() },
                );
                assert(self.code() =~= old(self).code() + munch_stm(statement@, start).code);
            },
        }
    }
}

} // verus!
