//! The simplest allocation: every temporary that stands for no machine
//! register lives in the frame, and is brought into `r10` or `r11` for the
//! one instruction that reads or writes it.

use std::collections::HashMap;
use vstd::prelude::*;
use crate::assem::{copy_temps, instruction_views, Instruction, InstructionView};
use crate::codegen::{load_at, munch_exp, munch_stm, store_at, Gen};
use crate::frame::x86_64::{reg, Access, X86_64, R10, R11, RBP};
use crate::frame::Frame;
use crate::ir::{exp_view, statement_view, Exp, ExpView, Statement, StatementView};
use crate::spill::{slot_known, slot_of};
use crate::temp::{Gensym, Temp};

verus! {

/// The expression of the frame slot at `offset`.
pub open spec fn slot_view(offset: i64) -> crate::ir::ExpView {
    crate::frame::x86_64::access_exp(Access::InFrame(offset), crate::ir::ExpView::Temp(reg(RBP)))
}

/// Selecting the store of a temporary to a frame slot gives one store.
pub proof fn lemma_munch_store(offset: i64, value: Temp, temps: int)
    ensures
        munch_stm(
            crate::ir::StatementView::Move(slot_view(offset), crate::ir::ExpView::Temp(value)),
            temps,
        ).code == seq![store_at(reg(RBP), offset, value)],
        munch_stm(
            crate::ir::StatementView::Move(slot_view(offset), crate::ir::ExpView::Temp(value)),
            temps,
        ).temps == temps,
{
    reveal_with_fuel(munch_exp, 3);
    reveal_with_fuel(munch_stm, 3);
    let statement = crate::ir::StatementView::Move(
        slot_view(offset),
        crate::ir::ExpView::Temp(value),
    );
    assert(munch_stm(statement, temps).code =~= seq![store_at(reg(RBP), offset, value)]);
}

/// Whether `temp` lives in the frame: it stands for no machine register.
pub open spec fn spilled(temp: Temp) -> bool {
    X86_64::spec_special_name(temp) is None
}

/// Whether `temp` lives in the frame.
pub fn is_spilled(temp: Temp) -> (result: bool)
    ensures
        result == spilled(temp),
{
    match X86_64::special_name(temp) {
        Some(_) => false,
        None => true,
    }
}

/// The temporaries of a list that live in the frame.
pub open spec fn spilled_of(temps: Seq<Temp>) -> Seq<Temp> {
    temps.filter(|temp: Temp| spilled(temp))
}

/// The temporaries of the instructions that live in the frame, once for
/// each time one is read or written: for each instruction those it reads,
/// then those it writes.
pub open spec fn spill_list(instructions: Seq<InstructionView>) -> Seq<Temp>
    decreases instructions.len(),
{
    if instructions.len() == 0 {
        Seq::empty()
    } else {
        spill_list(instructions.drop_last()) + spilled_of(instructions.last().source())
            + spilled_of(instructions.last().destination())
    }
}

/// The first temporary of a list that lives in the frame.
pub open spec fn first_in_frame(temps: Seq<Temp>) -> Option<Temp>
    decreases temps.len(),
{
    if temps.len() == 0 {
        None
    } else if spilled(temps[0]) {
        Some(temps[0])
    } else {
        first_in_frame(temps.subrange(1, temps.len() as int))
    }
}

/// The load of the slot of `temp` into the register `scratch`.
pub open spec fn load_of(spills: Seq<Temp>, pointer: int, scratch: u32, temp: Temp) -> InstructionView {
    load_at(reg(scratch), reg(RBP), slot_of(spills, pointer, temp) as i64)
}

/// The instructions that stand for one instruction when its temporaries
/// live in the frame. If it writes such a temporary, it writes `r11`
/// instead, which is stored to the slot afterwards. The first two
/// temporaries it reads are loaded before it, where they live in the frame:
/// the first into `r10`, the second into `r11`, or into `r10` if the
/// instruction writes to the frame and the first needs no load.
pub open spec fn staged(instruction: InstructionView, spills: Seq<Temp>, pointer: int) -> Seq<
    InstructionView,
> {
    let source = instruction.source();
    let written = first_in_frame(instruction.destination());
    let read = first_in_frame(source);
    if instruction is Label {
        seq![instruction]
    } else if written is Some {
        let store = store_at(
            reg(RBP),
            slot_of(spills, pointer, written.unwrap()) as i64,
            reg(R11),
        );
        if source.len() > 1 && spilled(source[0]) && spilled(source[1]) {
            seq![
                load_of(spills, pointer, R10, source[0]),
                load_of(spills, pointer, R11, source[1]),
                instruction.with_operands(seq![reg(R11)], seq![reg(R10), reg(R11)]),
                store,
            ]
        } else if source.len() > 1 && spilled(source[0]) {
            seq![
                load_of(spills, pointer, R10, source[0]),
                instruction.with_operands(seq![reg(R11)], seq![reg(R10), source[1]]),
                store,
            ]
        } else if source.len() > 1 && spilled(source[1]) {
            seq![
                load_of(spills, pointer, R10, source[1]),
                instruction.with_operands(seq![reg(R11)], seq![source[0], reg(R10)]),
                store,
            ]
        } else if source.len() == 1 && spilled(source[0]) {
            seq![
                load_of(spills, pointer, R10, source[0]),
                instruction.with_operands(seq![reg(R11)], seq![reg(R10)]),
                store,
            ]
        } else {
            seq![instruction.with_operands(seq![reg(R11)], source), store]
        }
    } else if read is Some {
        if source.len() > 1 && spilled(source[0]) && spilled(source[1]) {
            seq![
                load_of(spills, pointer, R10, source[0]),
                load_of(spills, pointer, R11, source[1]),
                instruction.with_operands(instruction.destination(), seq![reg(R10), reg(R11)]),
            ]
        } else if source.len() > 1 && spilled(source[1]) {
            seq![
                load_of(spills, pointer, R11, source[1]),
                instruction.with_operands(instruction.destination(), seq![source[0], reg(R11)]),
            ]
        } else if source.len() > 1 && spilled(source[0]) {
            seq![
                load_of(spills, pointer, R10, source[0]),
                instruction.with_operands(instruction.destination(), seq![reg(R10), source[1]]),
            ]
        } else {
            seq![
                load_of(spills, pointer, R10, read.unwrap()),
                instruction.with_operands(instruction.destination(), seq![reg(R10)]),
            ]
        }
    } else {
        seq![instruction]
    }
}

/// The instructions that stand for a list of instructions when its
/// temporaries live in the frame.
pub open spec fn staged_all(instructions: Seq<InstructionView>, spills: Seq<Temp>, pointer: int) -> Seq<
    InstructionView,
>
    decreases instructions.len(),
{
    if instructions.len() == 0 {
        Seq::empty()
    } else {
        staged_all(instructions.drop_last(), spills, pointer) + staged(
            instructions.last(),
            spills,
            pointer,
        )
    }
}

/// Adds the temporaries of a list that live in the frame.
fn collect_spilled(temps: &Vec<Temp>, spills: &mut Vec<Temp>)
    ensures
        final(spills)@ == old(spills)@ + spilled_of(temps@),
{
    let mut index: usize = 0;
    assert(spilled_of(temps@.subrange(0, 0)) =~= Seq::<Temp>::empty()) by {
        reveal(Seq::filter);
    }
    assert(spills@ =~= old(spills)@ + spilled_of(temps@.subrange(0, 0)));
    while index < temps.len()
        invariant
            index <= temps@.len(),
            spills@ == old(spills)@ + spilled_of(temps@.subrange(0, index as int)),
        decreases temps@.len() - index,
    {
        let temp = temps[index];
        proof {
            let shorter = temps@.subrange(0, index as int);
            let longer = temps@.subrange(0, index + 1);
            assert(longer.drop_last() =~= shorter);
            assert(longer.last() == temp);
            reveal(Seq::filter);
            assert(spilled_of(longer) =~= if spilled(temp) {
                spilled_of(shorter).push(temp)
            } else {
                spilled_of(shorter)
            });
        }
        if is_spilled(temp) {
            spills.push(temp);
        }
        assert(spills@ =~= old(spills)@ + spilled_of(temps@.subrange(0, index + 1)));
        index = index + 1;
    }
    assert(temps@.subrange(0, index as int) =~= temps@);
}

/// The first temporary of a list that lives in the frame.
fn find_in_frame(temps: &Vec<Temp>) -> (found: Option<Temp>)
    ensures
        found == first_in_frame(temps@),
        found matches Some(temp) ==> spilled(temp) && temps@.contains(temp),
{
    let mut index: usize = 0;
    assert(temps@.subrange(0, temps@.len() as int) =~= temps@);
    while index < temps.len()
        invariant
            index <= temps@.len(),
            first_in_frame(temps@) == first_in_frame(
                temps@.subrange(index as int, temps@.len() as int),
            ),
        decreases temps@.len() - index,
    {
        let temp = temps[index];
        proof {
            let rest = temps@.subrange(index as int, temps@.len() as int);
            assert(rest[0] == temp);
            assert(rest.subrange(1, rest.len() as int) =~= temps@.subrange(
                index + 1,
                temps@.len() as int,
            ));
        }
        if is_spilled(temp) {
            return Some(temp);
        }
        index = index + 1;
    }
    None
}

/// Every temporary of a list that lives in the frame is in the list of
/// those that do.
pub proof fn lemma_spilled_of_contains(temps: Seq<Temp>, temp: Temp)
    requires
        temps.contains(temp),
        spilled(temp),
    ensures
        spilled_of(temps).contains(temp),
    decreases temps.len(),
{
    reveal(Seq::filter);
    let shorter = temps.drop_last();
    if temps.last() == temp {
        assert(spilled_of(temps) =~= spilled_of(shorter).push(temp));
        assert(spilled_of(temps)[spilled_of(shorter).len() as int] == temp);
    } else {
        let i = choose|i: int| 0 <= i < temps.len() && temps[i] == temp;
        assert(shorter[i] == temp);
        lemma_spilled_of_contains(shorter, temp);
        let k = choose|k: int| 0 <= k < spilled_of(shorter).len() && spilled_of(shorter)[k] == temp;
        assert(spilled_of(temps)[k] == temp);
    }
}

/// Every temporary that an instruction reads or writes and that lives in
/// the frame is in the spill list.
pub proof fn lemma_spill_list_contains(instructions: Seq<InstructionView>, index: int, temp: Temp)
    requires
        0 <= index < instructions.len(),
        spilled(temp),
        instructions[index].source().contains(temp) || instructions[index].destination().contains(
            temp,
        ),
    ensures
        spill_list(instructions).contains(temp),
    decreases instructions.len(),
{
    let shorter = instructions.drop_last();
    let list = spill_list(instructions);
    let before = spill_list(shorter);
    let reads = spilled_of(instructions.last().source());
    let writes = spilled_of(instructions.last().destination());
    if index < instructions.len() - 1 {
        assert(shorter[index] == instructions[index]);
        lemma_spill_list_contains(shorter, index, temp);
        let k = choose|k: int| 0 <= k < before.len() && before[k] == temp;
        assert(list[k] == temp);
    } else if instructions[index].source().contains(temp) {
        lemma_spilled_of_contains(instructions.last().source(), temp);
        let k = choose|k: int| 0 <= k < reads.len() && reads[k] == temp;
        assert(list[before.len() + k] == temp);
    } else {
        lemma_spilled_of_contains(instructions.last().destination(), temp);
        let k = choose|k: int| 0 <= k < writes.len() && writes[k] == temp;
        assert(list[before.len() + reads.len() + k] == temp);
    }
}

/// The slot of each temporary of `spills`, each time it stands in the list.
fn lay_out(spills: &Vec<Temp>, frame: &mut X86_64, gensym: &mut Gensym) -> (memory: HashMap<u32, i64>)
    requires
        old(frame).wf(),
        old(frame).room() >= spills@.len(),
    ensures
        final(frame).wf(),
        final(frame).name == old(frame).name,
        final(frame).formals == old(frame).formals,
        final(frame).pointer == old(frame).pointer - 8 * spills@.len(),
        *final(gensym) == *old(gensym),
        forall|temp: Temp|
            spills@.contains(temp) ==> #[trigger] slot_known(
                memory@,
                spills@,
                old(frame).pointer as int,
                temp,
            ),
{
    let mut memory: HashMap<u32, i64> = HashMap::new();
    let mut index: usize = 0;
    while index < spills.len()
        invariant
            index <= spills@.len(),
            frame.wf(),
            frame.room() >= spills@.len() - index,
            frame.name == old(frame).name,
            frame.formals == old(frame).formals,
            frame.pointer == old(frame).pointer - 8 * index,
            *gensym == *old(gensym),
            forall|temp: Temp|
                spills@.subrange(0, index as int).contains(temp) ==> #[trigger] slot_known(
                    memory@,
                    spills@.subrange(0, index as int),
                    old(frame).pointer as int,
                    temp,
                ),
        decreases spills@.len() - index,
    {
        let spill = spills[index];
        let ghost listed = memory@;
        let local = frame.alloc_local(true, gensym);
        let offset = match local {
            Access::InFrame(offset) => offset,
            Access::InReg(_) => 0,
        };
        memory.insert(spill.num, offset);
        proof {
            let shorter = spills@.subrange(0, index as int);
            let longer = spills@.subrange(0, index + 1);
            assert(longer.drop_last() =~= shorter);
            assert(longer.last() == spill);
            assert(longer =~= shorter.push(spill));
            assert forall|temp: Temp| longer.contains(temp) implies #[trigger] slot_known(
                memory@,
                longer,
                old(frame).pointer as int,
                temp,
            ) by {
                crate::flow::lemma_push_contains(shorter, spill, temp);
                if temp != spill {
                    assert(temp.num != spill.num);
                    assert(shorter.contains(temp));
                    assert(slot_known(listed, shorter, old(frame).pointer as int, temp));
                }
            }
        }
        index = index + 1;
    }
    assert(spills@.subrange(0, index as int) =~= spills@);
    memory
}

/// Selecting the move of a frame slot into a temporary gives one load.
pub proof fn lemma_munch_load(destination: Temp, offset: i64, temps: int)
    ensures
        munch_stm(StatementView::Move(ExpView::Temp(destination), slot_view(offset)), temps).code
            == seq![load_at(destination, reg(RBP), offset)],
        munch_stm(StatementView::Move(ExpView::Temp(destination), slot_view(offset)), temps).temps
            == temps,
{
    reveal_with_fuel(munch_exp, 3);
    reveal_with_fuel(munch_stm, 3);
    let statement = StatementView::Move(ExpView::Temp(destination), slot_view(offset));
    assert(munch_stm(statement, temps).code =~= seq![load_at(destination, reg(RBP), offset)]);
}

/// Emits the load of a frame slot into a register.
fn emit_load(gen: &mut Gen, frame: &X86_64, offset: i64, scratch: Temp, gensym: &mut Gensym)
    ensures
        final(gen).code() == old(gen).code().push(load_at(scratch, reg(RBP), offset)),
        *final(gensym) == *old(gensym),
{
    let ghost start = gensym.temps as int;
    let register = Exp::Temp(X86_64::fp());
    assert(register@ == ExpView::Temp(reg(RBP))) by {
        reveal_with_fuel(exp_view, 2);
    }
    let slot = frame.exp(Access::InFrame(offset), register);
    let load = Statement::Move(Exp::Temp(scratch), slot);
    assert(load@ == StatementView::Move(ExpView::Temp(scratch), slot_view(offset))) by {
        reveal_with_fuel(exp_view, 3);
        reveal_with_fuel(statement_view, 3);
    }
    proof {
        lemma_munch_load(scratch, offset, start);
    }
    gen.munch_statement(&load, gensym);
    assert(gen.code() =~= old(gen).code().push(load_at(scratch, reg(RBP), offset)));
}

/// Emits the store of a register to a frame slot.
fn emit_store(gen: &mut Gen, frame: &X86_64, offset: i64, scratch: Temp, gensym: &mut Gensym)
    ensures
        final(gen).code() == old(gen).code().push(store_at(reg(RBP), offset, scratch)),
        *final(gensym) == *old(gensym),
{
    let ghost start = gensym.temps as int;
    let register = Exp::Temp(X86_64::fp());
    assert(register@ == ExpView::Temp(reg(RBP))) by {
        reveal_with_fuel(exp_view, 2);
    }
    let slot = frame.exp(Access::InFrame(offset), register);
    let store = Statement::Move(slot, Exp::Temp(scratch));
    assert(store@ == StatementView::Move(slot_view(offset), ExpView::Temp(scratch))) by {
        reveal_with_fuel(exp_view, 3);
        reveal_with_fuel(statement_view, 3);
    }
    proof {
        lemma_munch_store(offset, scratch, start);
    }
    gen.munch_statement(&store, gensym);
    assert(gen.code() =~= old(gen).code().push(store_at(reg(RBP), offset, scratch)));
}

/// The instruction over other temporaries.
fn with_temps(instruction: &Instruction, destination: Vec<Temp>, source: Vec<Temp>) -> (result:
    Instruction)
    ensures
        result@ == instruction@.with_operands(destination@, source@),
{
    match instruction {
        Instruction::Label { assembly, label } => Instruction::Label {
            assembly: assembly.clone(),
            label: label.copy(),
        },
        Instruction::Move { assembly, .. } => Instruction::Move {
            assembly: assembly.clone(),
            destination,
            source,
        },
        Instruction::Operation { assembly, jump, .. } => Instruction::Operation {
            assembly: assembly.clone(),
            destination,
            source,
            jump: match jump {
                Some(labels) => Some(crate::ir::copy_labels(labels)),
                None => None,
            },
        },
    }
}

/// The offset of the slot of a temporary.
fn slot(memory: &HashMap<u32, i64>, temp: Temp, Ghost(spills): Ghost<Seq<Temp>>, Ghost(pointer): Ghost<
    int,
>) -> (offset: i64)
    requires
        slot_known(memory@, spills, pointer, temp),
    ensures
        offset == slot_of(spills, pointer, temp),
{
    match memory.get(&temp.num) {
        Some(offset) => *offset,
        None => 0,
    }
}

/// Emits what stands for one instruction that reads or writes the frame.
fn stage(
    gen: &mut Gen,
    instruction: &Instruction,
    destination: &Vec<Temp>,
    source: &Vec<Temp>,
    memory: &HashMap<u32, i64>,
    frame: &X86_64,
    gensym: &mut Gensym,
    Ghost(spills): Ghost<Seq<Temp>>,
    Ghost(pointer): Ghost<int>,
)
    requires
        !(instruction@ is Label),
        destination@ == instruction@.destination(),
        source@ == instruction@.source(),
        forall|temp: Temp|
            spilled(temp) && (source@.contains(temp) || destination@.contains(temp))
                ==> #[trigger] slot_known(memory@, spills, pointer, temp),
    ensures
        final(gen).code() == old(gen).code() + staged(instruction@, spills, pointer),
        *final(gensym) == *old(gensym),
{
    let written = find_in_frame(destination);
    let read = find_in_frame(source);
    let first = source.len() > 0 && is_spilled(source[0]);
    let second = source.len() > 1 && is_spilled(source[1]);
    proof {
        if source@.len() > 0 {
            assert(source@.contains(source@[0]));
        }
        if source@.len() > 1 {
            assert(source@.contains(source@[1]));
        }
    }
    match written {
        Some(target) => {
            let store = slot(memory, target, Ghost(spills), Ghost(pointer));
            if source.len() > 1 && first && second {
                let one = slot(memory, source[0], Ghost(spills), Ghost(pointer));
                let two = slot(memory, source[1], Ghost(spills), Ghost(pointer));
                emit_load(gen, frame, one, reg(R10), gensym);
                emit_load(gen, frame, two, reg(R11), gensym);
                let sources = vec![reg(R10), reg(R11)];
                let destinations = vec![reg(R11)];
                assert(sources@ =~= seq![reg(R10), reg(R11)]);
                assert(destinations@ =~= seq![reg(R11)]);
                gen.emit(with_temps(instruction, destinations, sources));
            } else if source.len() > 1 && first {
                let one = slot(memory, source[0], Ghost(spills), Ghost(pointer));
                emit_load(gen, frame, one, reg(R10), gensym);
                let sources = vec![reg(R10), source[1]];
                let destinations = vec![reg(R11)];
                assert(sources@ =~= seq![reg(R10), source@[1]]);
                assert(destinations@ =~= seq![reg(R11)]);
                gen.emit(with_temps(instruction, destinations, sources));
            } else if source.len() > 1 && second {
                let two = slot(memory, source[1], Ghost(spills), Ghost(pointer));
                emit_load(gen, frame, two, reg(R10), gensym);
                let sources = vec![source[0], reg(R10)];
                let destinations = vec![reg(R11)];
                assert(sources@ =~= seq![source@[0], reg(R10)]);
                assert(destinations@ =~= seq![reg(R11)]);
                gen.emit(with_temps(instruction, destinations, sources));
            } else if source.len() == 1 && first {
                let one = slot(memory, source[0], Ghost(spills), Ghost(pointer));
                emit_load(gen, frame, one, reg(R10), gensym);
                let sources = vec![reg(R10)];
                let destinations = vec![reg(R11)];
                assert(sources@ =~= seq![reg(R10)]);
                assert(destinations@ =~= seq![reg(R11)]);
                gen.emit(with_temps(instruction, destinations, sources));
            } else {
                let destinations = vec![reg(R11)];
                assert(destinations@ =~= seq![reg(R11)]);
                gen.emit(with_temps(instruction, destinations, copy_temps(source)));
            }
            emit_store(gen, frame, store, reg(R11), gensym);
            assert(gen.code() =~= old(gen).code() + staged(instruction@, spills, pointer));
        },
        None => {
            match read {
                Some(origin) => {
                    if source.len() > 1 && first && second {
                        let one = slot(memory, source[0], Ghost(spills), Ghost(pointer));
                        let two = slot(memory, source[1], Ghost(spills), Ghost(pointer));
                        emit_load(gen, frame, one, reg(R10), gensym);
                        emit_load(gen, frame, two, reg(R11), gensym);
                        let sources = vec![reg(R10), reg(R11)];
                        assert(sources@ =~= seq![reg(R10), reg(R11)]);
                        gen.emit(with_temps(instruction, copy_temps(destination), sources));
                    } else if source.len() > 1 && second {
                        let two = slot(memory, source[1], Ghost(spills), Ghost(pointer));
                        emit_load(gen, frame, two, reg(R11), gensym);
                        let sources = vec![source[0], reg(R11)];
                        assert(sources@ =~= seq![source@[0], reg(R11)]);
                        gen.emit(with_temps(instruction, copy_temps(destination), sources));
                    } else if source.len() > 1 && first {
                        let one = slot(memory, source[0], Ghost(spills), Ghost(pointer));
                        emit_load(gen, frame, one, reg(R10), gensym);
                        let sources = vec![reg(R10), source[1]];
                        assert(sources@ =~= seq![reg(R10), source@[1]]);
                        gen.emit(with_temps(instruction, copy_temps(destination), sources));
                    } else {
                        let one = slot(memory, origin, Ghost(spills), Ghost(pointer));
                        emit_load(gen, frame, one, reg(R10), gensym);
                        let sources = vec![reg(R10)];
                        assert(sources@ =~= seq![reg(R10)]);
                        gen.emit(with_temps(instruction, copy_temps(destination), sources));
                    }
                    assert(gen.code() =~= old(gen).code() + staged(instruction@, spills, pointer));
                },
                None => {
                    gen.emit(instruction.copy());
                    assert(gen.code() =~= old(gen).code() + staged(instruction@, spills, pointer));
                },
            }
        },
    }
}

/// The temporaries of the instructions that live in the frame, once for
/// each time one is read or written.
pub fn spills_of(instructions: &Vec<Instruction>) -> (spills: Vec<Temp>)
    ensures
        spills@ == spill_list(instruction_views(instructions@)),
{
    let ghost views = instruction_views(instructions@);
    let mut spills: Vec<Temp> = Vec::new();
    let mut index: usize = 0;
    assert(spills@ =~= spill_list(views.subrange(0, 0)));
    while index < instructions.len()
        invariant
            index <= instructions@.len(),
            views == instruction_views(instructions@),
            spills@ == spill_list(views.subrange(0, index as int)),
        decreases instructions@.len() - index,
    {
        proof {
            let longer = views.subrange(0, index + 1);
            assert(longer.drop_last() =~= views.subrange(0, index as int));
            assert(longer.last() == instructions@[index as int]@);
        }
        match &instructions[index] {
            Instruction::Label { .. } => {
                assert(spilled_of(Seq::<Temp>::empty()) =~= Seq::<Temp>::empty()) by {
                    reveal(Seq::filter);
                }
                assert(spills@ =~= spill_list(views.subrange(0, index + 1)));
            },
            Instruction::Move { destination, source, .. } => {
                collect_spilled(source, &mut spills);
                collect_spilled(destination, &mut spills);
            },
            Instruction::Operation { destination, source, .. } => {
                collect_spilled(source, &mut spills);
                collect_spilled(destination, &mut spills);
            },
        }
        index = index + 1;
    }
    assert(views.subrange(0, index as int) =~= views);
    spills
}

/// Allocates without colouring: every temporary that stands for no machine
/// register gets a slot in the frame for each time it is read or written,
/// of which the last is used, and every instruction is staged through
/// `r10` and `r11`.
pub fn simplest_allocate(instructions: Vec<Instruction>, frame: &mut X86_64, gensym: &mut Gensym) -> (result:
    Vec<Instruction>)
    requires
        old(frame).wf(),
        old(frame).room() >= spill_list(instruction_views(instructions@)).len(),
    ensures
        instruction_views(result@) == staged_all(
            instruction_views(instructions@),
            spill_list(instruction_views(instructions@)),
            old(frame).pointer as int,
        ),
        final(frame).wf(),
        final(frame).name == old(frame).name,
        final(frame).formals == old(frame).formals,
        final(frame).pointer == old(frame).pointer - 8 * spill_list(
            instruction_views(instructions@),
        ).len(),
        *final(gensym) == *old(gensym),
{
    let ghost views = instruction_views(instructions@);
    let ghost pointer = frame.pointer as int;
    let spills = spills_of(&instructions);
    let memory = lay_out(&spills, frame, gensym);
    let mut gen = Gen::new();
    let mut position: usize = 0;
    assert(gen.code() =~= staged_all(views.subrange(0, 0), spills@, pointer));
    while position < instructions.len()
        invariant
            position <= instructions@.len(),
            views == instruction_views(instructions@),
            spills@ == spill_list(views),
            *gensym == *old(gensym),
            forall|temp: Temp|
                spills@.contains(temp) ==> #[trigger] slot_known(memory@, spills@, pointer, temp),
            gen.code() == staged_all(views.subrange(0, position as int), spills@, pointer),
        decreases instructions@.len() - position,
    {
        proof {
            let longer = views.subrange(0, position + 1);
            assert(longer.drop_last() =~= views.subrange(0, position as int));
            assert(longer.last() == instructions@[position as int]@);
        }
        let instruction = &instructions[position];
        proof {
            assert forall|temp: Temp|
                spilled(temp) && (instruction@.source().contains(temp)
                    || instruction@.destination().contains(temp)) implies #[trigger] slot_known(
                memory@,
                spills@,
                pointer,
                temp,
            ) by {
                lemma_spill_list_contains(views, position as int, temp);
            }
        }
        match instruction {
            Instruction::Label { .. } => {
                let ghost before = gen.code();
                gen.emit(instruction.copy());
                assert(gen.code() =~= before + staged(instruction@, spills@, pointer));
            },
            Instruction::Move { destination, source, .. } => {
                stage(
                    &mut gen,
                    instruction,
                    destination,
                    source,
                    &memory,
                    frame,
                    gensym,
                    Ghost(spills@),
                    Ghost(pointer),
                );
            },
            Instruction::Operation { destination, source, .. } => {
                stage(
                    &mut gen,
                    instruction,
                    destination,
                    source,
                    &memory,
                    frame,
                    gensym,
                    Ghost(spills@),
                    Ghost(pointer),
                );
            },
        }
        position = position + 1;
    }
    assert(views.subrange(0, position as int) =~= views);
    gen.get_result()
}

} // verus!
