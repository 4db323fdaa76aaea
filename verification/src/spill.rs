//! Rewriting for spilled temporaries: in each instruction a fresh
//! temporary stands for each spilled one, loaded from its frame slot
//! before the instruction if the instruction reads it, and stored there
//! after the instruction if it writes it.

use std::collections::HashMap;
use vstd::prelude::*;
use crate::assem::{instruction_views, Instruction, InstructionView};
use crate::codegen::{fresh, load_at, make_load, make_store, store_at, Gen};
use crate::flow::{jump_labels, jumps_defined, label_position, lemma_label_position};
use crate::frame::x86_64::{reg, Access, X86_64, RBP};
use crate::frame::Frame;
use crate::ir::copy_labels;
use crate::ordset::OrdSet;
use crate::supply::{add_capped, capped};
use crate::temp::{Gensym, Temp};

verus! {

/// The offset of the frame slot of a spilled temporary, when the slots were
/// laid out below `pointer` in the order of `spills`: that of its last
/// place in the list.
pub open spec fn slot_of(spills: Seq<Temp>, pointer: int, temp: Temp) -> int
    decreases spills.len(),
{
    if spills.len() == 0 {
        0
    } else if spills.last() == temp {
        pointer - 8 * spills.len()
    } else {
        slot_of(spills.drop_last(), pointer, temp)
    }
}

/// Whether the table of slots holds the slot of `temp`.
pub open spec fn slot_known(memory: Map<u32, i64>, spills: Seq<Temp>, pointer: int, temp: Temp) -> bool {
    memory.contains_key(temp.num) && memory[temp.num] == slot_of(spills, pointer, temp)
}

/// The temporaries of `found`, then those of `operands` that are spilled
/// and were not met before, in the order in which they are met.
pub open spec fn gathered(found: Seq<Temp>, operands: Seq<Temp>, spills: Set<Temp>) -> Seq<Temp>
    decreases operands.len(),
{
    if operands.len() == 0 {
        found
    } else {
        let before = gathered(found, operands.drop_last(), spills);
        if spills.contains(operands.last()) && !before.contains(operands.last()) {
            before.push(operands.last())
        } else {
            before
        }
    }
}

/// The spilled temporaries of an instruction, each once: those it reads,
/// then those it writes, in the order in which they are met.
pub open spec fn spilled_in(instruction: InstructionView, spills: Set<Temp>) -> Seq<Temp> {
    gathered(
        gathered(Seq::empty(), instruction.source(), spills),
        instruction.destination(),
        spills,
    )
}

/// The last place of `temp` in `given`; the first place if it has none.
pub open spec fn place_in(given: Seq<Temp>, temp: Temp) -> int
    decreases given.len(),
{
    if given.len() == 0 {
        0
    } else if given.last() == temp {
        given.len() - 1
    } else {
        place_in(given.drop_last(), temp)
    }
}

/// What stands for `temp` in an instruction whose spilled temporaries are
/// `given`: the fresh temporary of its place if it is one of them, else
/// itself.
pub open spec fn stand_in(given: Seq<Temp>, temps: int, temp: Temp) -> Temp {
    if given.contains(temp) {
        fresh(temps + place_in(given, temp))
    } else {
        temp
    }
}

/// The operands with what stands for each in its place.
pub open spec fn renamed(operands: Seq<Temp>, given: Seq<Temp>, temps: int) -> Seq<Temp> {
    Seq::new(operands.len(), |i: int| stand_in(given, temps, operands[i]))
}

/// The loads of the first `upto` spilled temporaries of an instruction
/// that it reads, each from its slot into the fresh temporary that stands
/// for it.
pub open spec fn loads(
    given: Seq<Temp>,
    upto: int,
    read: Seq<Temp>,
    spills: Seq<Temp>,
    pointer: int,
    temps: int,
) -> Seq<InstructionView>
    decreases upto,
{
    if upto <= 0 {
        Seq::empty()
    } else {
        let before = loads(given, upto - 1, read, spills, pointer, temps);
        if read.contains(given[upto - 1]) {
            before.push(
                load_at(
                    fresh(temps + upto - 1),
                    reg(RBP),
                    slot_of(spills, pointer, given[upto - 1]) as i64,
                ),
            )
        } else {
            before
        }
    }
}

/// The stores of the first `upto` spilled temporaries of an instruction
/// that it writes, each to its slot from the fresh temporary that stands
/// for it.
pub open spec fn stores(
    given: Seq<Temp>,
    upto: int,
    written: Seq<Temp>,
    spills: Seq<Temp>,
    pointer: int,
    temps: int,
) -> Seq<InstructionView>
    decreases upto,
{
    if upto <= 0 {
        Seq::empty()
    } else {
        let before = stores(given, upto - 1, written, spills, pointer, temps);
        if written.contains(given[upto - 1]) {
            before.push(
                store_at(
                    reg(RBP),
                    slot_of(spills, pointer, given[upto - 1]) as i64,
                    fresh(temps + upto - 1),
                ),
            )
        } else {
            before
        }
    }
}

/// The `count` temporaries that the supply hands out after `temps`.
pub open spec fn fresh_set(temps: int, count: int) -> Set<Temp>
    decreases count,
{
    if count <= 0 {
        Set::empty()
    } else {
        fresh_set(temps, count - 1).insert(fresh(temps + count - 1))
    }
}

/// What rewriting gives: the instructions, the last temporary taken from
/// the supply, and the temporaries that were taken.
pub struct Rewritten {
    pub code: Seq<InstructionView>,
    pub temps: int,
    pub fresh: Set<Temp>,
}

/// The instructions that stand for one instruction once the temporaries of
/// `spills` live in the frame: a fresh temporary stands for each spilled
/// temporary of the instruction; it is loaded from the slot before the
/// instruction if the instruction reads the spilled one, and stored to the
/// slot after it if the instruction writes it.
pub open spec fn rewrite_one(
    instruction: InstructionView,
    spills: Seq<Temp>,
    pointer: int,
    temps: int,
) -> Rewritten {
    let given = spilled_in(instruction, spills.to_set());
    let count = given.len() as int;
    Rewritten {
        code: loads(given, count, instruction.source(), spills, pointer, temps) + seq![
            instruction.with_operands(
                renamed(instruction.destination(), given, temps),
                renamed(instruction.source(), given, temps),
            ),
        ] + stores(given, count, instruction.destination(), spills, pointer, temps),
        temps: temps + count,
        fresh: fresh_set(temps, count),
    }
}

/// The instructions that stand for a list of instructions once the
/// temporaries of `spills` live in the frame.
pub open spec fn rewrite_all(
    instructions: Seq<InstructionView>,
    spills: Seq<Temp>,
    pointer: int,
    temps: int,
) -> Rewritten
    decreases instructions.len(),
{
    if instructions.len() == 0 {
        Rewritten { code: Seq::empty(), temps, fresh: Set::empty() }
    } else {
        let before = rewrite_all(instructions.drop_last(), spills, pointer, temps);
        let last = rewrite_one(instructions.last(), spills, pointer, before.temps);
        Rewritten {
            code: before.code + last.code,
            temps: last.temps,
            fresh: before.fresh.union(last.fresh),
        }
    }
}

/// How many temporaries the instructions read and write, each counted as
/// often as it stands in them.
pub open spec fn operand_count(instructions: Seq<InstructionView>) -> nat
    decreases instructions.len(),
{
    if instructions.len() == 0 {
        0
    } else {
        operand_count(instructions.drop_last()) + instructions.last().source().len()
            + instructions.last().destination().len()
    }
}

/// What is gathered holds what was found, in its order, and beside it
/// only spilled temporaries of the operands, no more than there are
/// operands, and each of them that is not among what was found once.
pub proof fn lemma_gathered(found: Seq<Temp>, operands: Seq<Temp>, spills: Set<Temp>)
    ensures
        found.len() <= gathered(found, operands, spills).len() <= found.len() + operands.len(),
        forall|k: int| 0 <= k < found.len() ==> gathered(found, operands, spills)[k] == found[k],
        forall|k: int|
            found.len() <= k < gathered(found, operands, spills).len() ==> spills.contains(
                #[trigger] gathered(found, operands, spills)[k],
            ) && operands.contains(gathered(found, operands, spills)[k]),
        forall|i: int|
            0 <= i < operands.len() && spills.contains(#[trigger] operands[i]) ==> gathered(
                found,
                operands,
                spills,
            ).contains(operands[i]),
        forall|temp: Temp|
            found.contains(temp) ==> #[trigger] gathered(found, operands, spills).contains(temp),
        found.no_duplicates() ==> gathered(found, operands, spills).no_duplicates(),
    decreases operands.len(),
{
    let all = gathered(found, operands, spills);
    if operands.len() > 0 {
        let shorter = operands.drop_last();
        let last = operands[operands.len() - 1];
        lemma_gathered(found, shorter, spills);
        let before = gathered(found, shorter, spills);
        assert forall|k: int| found.len() <= k < all.len() implies spills.contains(#[trigger] all[k])
            && operands.contains(all[k]) by {
            if k < before.len() {
                assert(all[k] == before[k]);
                let i = choose|i: int| 0 <= i < shorter.len() && shorter[i] == before[k];
                assert(operands[i] == before[k]);
            } else {
                assert(all[k] == last);
            }
        }
        assert forall|i: int| 0 <= i < operands.len() && spills.contains(#[trigger] operands[i]) implies all.contains(
            operands[i],
        ) by {
            if i < shorter.len() {
                assert(shorter[i] == operands[i]);
                let k = choose|k: int| 0 <= k < before.len() && before[k] == shorter[i];
                assert(all[k] == operands[i]);
            } else if before.contains(last) {
                let k = choose|k: int| 0 <= k < before.len() && before[k] == last;
                assert(all[k] == last);
            } else {
                assert(all[before.len() as int] == last);
            }
        }
        assert forall|temp: Temp| found.contains(temp) implies #[trigger] all.contains(temp) by {
            let k = choose|k: int| 0 <= k < before.len() && before[k] == temp;
            assert(all[k] == temp);
        }
        if found.no_duplicates() {
            assert forall|i: int, j: int| 0 <= i < all.len() && 0 <= j < all.len() && i != j implies all[i]
                != all[j] by {
                if i < before.len() && j < before.len() {
                    assert(all[i] == before[i] && all[j] == before[j]);
                } else if i < before.len() {
                    assert(all[i] == before[i]);
                } else if j < before.len() {
                    assert(all[j] == before[j]);
                }
            }
        }
    } else {
        assert forall|temp: Temp| found.contains(temp) implies #[trigger] all.contains(temp) by {}
    }
}

/// A temporary of a list has its place in it.
pub proof fn lemma_place_in(given: Seq<Temp>, temp: Temp)
    requires
        given.contains(temp),
    ensures
        0 <= place_in(given, temp) < given.len(),
        given[place_in(given, temp)] == temp,
    decreases given.len(),
{
    if given.last() != temp {
        let i = choose|i: int| 0 <= i < given.len() && given[i] == temp;
        assert(given.drop_last()[i] == temp);
        lemma_place_in(given.drop_last(), temp);
    }
}

/// The spilled temporaries of an instruction are spilled, stand in it, and
/// are no more than its operands.
pub proof fn lemma_spilled_in(instruction: InstructionView, spills: Set<Temp>)
    ensures
        spilled_in(instruction, spills).len() <= instruction.source().len()
            + instruction.destination().len(),
        spilled_in(instruction, spills).no_duplicates(),
        forall|k: int|
            0 <= k < spilled_in(instruction, spills).len() ==> spills.contains(
                #[trigger] spilled_in(instruction, spills)[k],
            ),
        forall|i: int|
            0 <= i < instruction.source().len() && spills.contains(
                #[trigger] instruction.source()[i],
            ) ==> spilled_in(instruction, spills).contains(instruction.source()[i]),
        forall|i: int|
            0 <= i < instruction.destination().len() && spills.contains(
                #[trigger] instruction.destination()[i],
            ) ==> spilled_in(instruction, spills).contains(instruction.destination()[i]),
{
    let read = gathered(Seq::empty(), instruction.source(), spills);
    lemma_gathered(Seq::empty(), instruction.source(), spills);
    lemma_gathered(read, instruction.destination(), spills);
    let all = spilled_in(instruction, spills);
    assert forall|k: int| 0 <= k < all.len() implies spills.contains(#[trigger] all[k]) by {
        if k < read.len() {
            assert(all[k] == read[k]);
        }
    }
    assert forall|i: int|
        0 <= i < instruction.source().len() && spills.contains(
            #[trigger] instruction.source()[i],
        ) implies all.contains(instruction.source()[i]) by {
        assert(read.contains(instruction.source()[i]));
    }
}

/// The slot of each spilled temporary.
fn lay_out(spills: &Vec<Temp>, frame: &mut X86_64, gensym: &mut Gensym) -> (memory: HashMap<u32, i64>)
    requires
        old(frame).wf(),
        old(frame).room() >= spills@.len(),
    ensures
        final(frame).wf(),
        final(frame).name == old(frame).name,
        final(frame).formals == old(frame).formals,
        final(frame).pointer == old(frame).pointer - 8 * spills@.len(),
        *final(gensym) == *old(gensym),
        forall|temp: Temp|
            spills@.contains(temp) ==> #[trigger] slot_known(
                memory@,
                spills@,
                old(frame).pointer as int,
                temp,
            ),
{
    let mut memory: HashMap<u32, i64> = HashMap::new();
    let mut index: usize = 0;
    while index < spills.len()
        invariant
            index <= spills@.len(),
            frame.wf(),
            frame.room() >= spills@.len() - index,
            frame.name == old(frame).name,
            frame.formals == old(frame).formals,
            frame.pointer == old(frame).pointer - 8 * index,
            *gensym == *old(gensym),
            forall|temp: Temp|
                spills@.subrange(0, index as int).contains(temp) ==> #[trigger] slot_known(
                    memory@,
                    spills@.subrange(0, index as int),
                    old(frame).pointer as int,
                    temp,
                ),
        decreases spills@.len() - index,
    {
        let spill = spills[index];
        let ghost listed = memory@;
        let local = frame.alloc_local(true, gensym);
        let offset = match local {
            Access::InFrame(offset) => offset,
            Access::InReg(_) => 0,
        };
        memory.insert(spill.num, offset);
        proof {
            let shorter = spills@.subrange(0, index as int);
            let longer = spills@.subrange(0, index + 1);
            assert(longer.drop_last() =~= shorter);
            assert(longer.last() == spill);
            assert(longer =~= shorter.push(spill));
            assert forall|temp: Temp| longer.contains(temp) implies #[trigger] slot_known(
                memory@,
                longer,
                old(frame).pointer as int,
                temp,
            ) by {
                crate::flow::lemma_push_contains(shorter, spill, temp);
                if temp != spill {
                    assert(temp.num != spill.num);
                    assert(shorter.contains(temp));
                    assert(slot_known(listed, shorter, old(frame).pointer as int, temp));
                }
            }
        }
        index = index + 1;
    }
    assert(spills@.subrange(0, index as int) =~= spills@);
    memory
}

/// The last place of `temp` in `given`, if it has one.
fn place_of(given: &Vec<Temp>, temp: Temp) -> (place: Option<usize>)
    ensures
        match place {
            Some(k) => given@.contains(temp) && k == place_in(given@, temp),
            None => !given@.contains(temp),
        },
{
    let mut index: usize = given.len();
    assert(given@.subrange(0, index as int) =~= given@);
    while index > 0
        invariant
            index <= given@.len(),
            place_in(given@, temp) == place_in(given@.subrange(0, index as int), temp),
            forall|k: int| index <= k < given@.len() ==> given@[k] != temp,
        decreases index,
    {
        proof {
            let prefix = given@.subrange(0, index as int);
            assert(prefix.last() == given@[index - 1]);
            assert(prefix.drop_last() =~= given@.subrange(0, index - 1));
        }
        if given[index - 1].num == temp.num {
            assert(given@[index - 1] == temp);
            return Some(index - 1);
        }
        index = index - 1;
    }
    None
}

/// Adds the spilled temporaries of `operands` that are not among `given`.
fn gather(operands: &Vec<Temp>, spilled: &OrdSet<Temp>, given: &mut Vec<Temp>)
    ensures
        final(given)@ == gathered(old(given)@, operands@, spilled@),
{
    let mut index: usize = 0;
    assert(operands@.subrange(0, 0) =~= Seq::<Temp>::empty());
    while index < operands.len()
        invariant
            index <= operands@.len(),
            given@ == gathered(old(given)@, operands@.subrange(0, index as int), spilled@),
        decreases operands@.len() - index,
    {
        let temp = operands[index];
        proof {
            let longer = operands@.subrange(0, index + 1);
            assert(longer.drop_last() =~= operands@.subrange(0, index as int));
            assert(longer.last() == temp);
        }
        if spilled.contains(&temp) {
            match place_of(given, temp) {
                Some(_) => {},
                None => {
                    given.push(temp);
                },
            }
        }
        index = index + 1;
    }
    assert(operands@.subrange(0, index as int) =~= operands@);
}

/// The operands with what stands for each in its place.
fn rename(operands: &Vec<Temp>, given: &Vec<Temp>, first: u32) -> (result: Vec<Temp>)
    requires
        first + given@.len() <= u32::MAX,
    ensures
        result@ == renamed(operands@, given@, first as int),
{
    let mut result: Vec<Temp> = Vec::new();
    let mut index: usize = 0;
    while index < operands.len()
        invariant
            index <= operands@.len(),
            first + given@.len() <= u32::MAX,
            result@.len() == index,
            forall|i: int|
                0 <= i < index ==> #[trigger] result@[i] == stand_in(
                    given@,
                    first as int,
                    operands@[i],
                ),
        decreases operands@.len() - index,
    {
        let temp = operands[index];
        let stand = match place_of(given, temp) {
            Some(place) => {
                proof {
                    lemma_place_in(given@, temp);
                }
                Temp { num: first + 1 + place as u32 }
            },
            None => temp,
        };
        result.push(stand);
        index = index + 1;
    }
    assert(result@ =~= renamed(operands@, given@, first as int));
    result
}

/// Whether the temporary stands in the list.
fn stands_in(list: &Vec<Temp>, temp: Temp) -> (found: bool)
    ensures
        found == list@.contains(temp),
{
    match place_of(list, temp) {
        Some(_) => true,
        None => false,
    }
}

/// The offset of the slot of a spilled temporary.
fn offset_of(memory: &HashMap<u32, i64>, temp: Temp, Ghost(spills): Ghost<Seq<Temp>>, Ghost(pointer): Ghost<int>) -> (offset:
    i64)
    requires
        slot_known(memory@, spills, pointer, temp),
    ensures
        offset == slot_of(spills, pointer, temp) as i64,
{
    match memory.get(&temp.num) {
        Some(offset) => *offset,
        None => 0,
    }
}

/// Emits the loads of the spilled temporaries that are read.
fn emit_loads(
    gen: &mut Gen,
    given: &Vec<Temp>,
    read: &Vec<Temp>,
    memory: &HashMap<u32, i64>,
    first: u32,
    Ghost(spills): Ghost<Seq<Temp>>,
    Ghost(pointer): Ghost<int>,
)
    requires
        first + given@.len() <= u32::MAX,
        forall|k: int|
            0 <= k < given@.len() ==> slot_known(memory@, spills, pointer, #[trigger] given@[k]),
    ensures
        final(gen).code() == old(gen).code() + loads(
            given@,
            given@.len() as int,
            read@,
            spills,
            pointer,
            first as int,
        ),
{
    let mut index: usize = 0;
    assert(gen.code() =~= old(gen).code() + loads(given@, 0, read@, spills, pointer, first as int));
    while index < given.len()
        invariant
            index <= given@.len(),
            first + given@.len() <= u32::MAX,
            forall|k: int|
                0 <= k < given@.len() ==> slot_known(memory@, spills, pointer, #[trigger] given@[k]),
            gen.code() == old(gen).code() + loads(
                given@,
                index as int,
                read@,
                spills,
                pointer,
                first as int,
            ),
        decreases given@.len() - index,
    {
        let temp = given[index];
        let ghost before = gen.code();
        if stands_in(read, temp) {
            let offset = offset_of(memory, temp, Ghost(spills), Ghost(pointer));
            gen.emit(make_load(Temp { num: first + 1 + index as u32 }, reg(RBP), offset));
        }
        assert(gen.code() =~= old(gen).code() + loads(
            given@,
            index + 1,
            read@,
            spills,
            pointer,
            first as int,
        ));
        index = index + 1;
    }
}

/// Emits the stores of the spilled temporaries that are written.
fn emit_stores(
    gen: &mut Gen,
    given: &Vec<Temp>,
    written: &Vec<Temp>,
    memory: &HashMap<u32, i64>,
    first: u32,
    Ghost(spills): Ghost<Seq<Temp>>,
    Ghost(pointer): Ghost<int>,
)
    requires
        first + given@.len() <= u32::MAX,
        forall|k: int|
            0 <= k < given@.len() ==> slot_known(memory@, spills, pointer, #[trigger] given@[k]),
    ensures
        final(gen).code() == old(gen).code() + stores(
            given@,
            given@.len() as int,
            written@,
            spills,
            pointer,
            first as int,
        ),
{
    let mut index: usize = 0;
    assert(gen.code() =~= old(gen).code() + stores(
        given@,
        0,
        written@,
        spills,
        pointer,
        first as int,
    ));
    while index < given.len()
        invariant
            index <= given@.len(),
            first + given@.len() <= u32::MAX,
            forall|k: int|
                0 <= k < given@.len() ==> slot_known(memory@, spills, pointer, #[trigger] given@[k]),
            gen.code() == old(gen).code() + stores(
                given@,
                index as int,
                written@,
                spills,
                pointer,
                first as int,
            ),
        decreases given@.len() - index,
    {
        let temp = given[index];
        if stands_in(written, temp) {
            let offset = offset_of(memory, temp, Ghost(spills), Ghost(pointer));
            gen.emit(make_store(reg(RBP), offset, Temp { num: first + 1 + index as u32 }));
        }
        assert(gen.code() =~= old(gen).code() + stores(
            given@,
            index + 1,
            written@,
            spills,
            pointer,
            first as int,
        ));
        index = index + 1;
    }
}

/// Takes `count` temporaries from the supply and adds them to `taken`.
fn take_fresh(gensym: &mut Gensym, count: usize, taken: &mut OrdSet<Temp>)
    requires
        old(gensym).temps + count <= u32::MAX,
    ensures
        *final(gensym) == (Gensym { temps: (old(gensym).temps + count) as u32, ..*old(gensym) }),
        final(taken)@ == old(taken)@.union(fresh_set(old(gensym).temps as int, count as int)),
{
    let first = gensym.temps;
    let mut index: usize = 0;
    assert(taken@ =~= old(taken)@.union(fresh_set(first as int, 0)));
    while index < count
        invariant
            index <= count,
            first == old(gensym).temps,
            first + count <= u32::MAX,
            *gensym == (Gensym { temps: (first + index) as u32, ..*old(gensym) }),
            taken@ == old(taken)@.union(fresh_set(first as int, index as int)),
        decreases count - index,
    {
        let temp = Temp::new(gensym);
        taken.insert(temp);
        assert(taken@ =~= old(taken)@.union(fresh_set(first as int, index + 1)));
        index = index + 1;
    }
}

/// Rewriting takes no more temporaries than the instructions have
/// operands.
pub proof fn lemma_rewrite_all_temps(
    instructions: Seq<InstructionView>,
    spills: Seq<Temp>,
    pointer: int,
    temps: int,
)
    ensures
        temps <= rewrite_all(instructions, spills, pointer, temps).temps <= temps + operand_count(
            instructions,
        ),
    decreases instructions.len(),
{
    if instructions.len() > 0 {
        lemma_rewrite_all_temps(instructions.drop_last(), spills, pointer, temps);
        lemma_spilled_in(instructions.last(), spills.to_set());
    }
}

/// The instructions without the last have no more operands.
pub proof fn lemma_operand_count(instructions: Seq<InstructionView>, upto: int)
    requires
        0 <= upto <= instructions.len(),
    ensures
        operand_count(instructions.subrange(0, upto)) <= operand_count(instructions),
    decreases instructions.len() - upto,
{
    if upto < instructions.len() {
        let longer = instructions.subrange(0, upto + 1);
        assert(longer.drop_last() =~= instructions.subrange(0, upto));
        lemma_operand_count(instructions, upto + 1);
    } else {
        assert(instructions.subrange(0, upto) =~= instructions);
    }
}

/// Rewrites the instructions so that the temporaries of `spills` live in
/// the frame: each gets a slot; in each instruction a fresh temporary
/// stands for each of them, loaded from the slot before the instruction if
/// the instruction reads the spilled one, and stored to the slot after it
/// if the instruction writes it. Gives the new instructions and the fresh
/// temporaries.
pub fn rewrite_program(
    instructions: Vec<Instruction>,
    spills: Vec<Temp>,
    frame: &mut X86_64,
    gensym: &mut Gensym,
) -> (result: (Vec<Instruction>, OrdSet<Temp>))
    requires
        old(frame).wf(),
        old(frame).room() >= spills@.len(),
        old(gensym).temps + operand_count(instruction_views(instructions@)) <= u32::MAX,
    ensures
        final(frame).wf(),
        final(frame).name == old(frame).name,
        final(frame).formals == old(frame).formals,
        final(frame).pointer == old(frame).pointer - 8 * spills@.len(),
        instruction_views(result.0@) == rewrite_all(
            instruction_views(instructions@),
            spills@,
            old(frame).pointer as int,
            old(gensym).temps as int,
        ).code,
        *final(gensym) == (Gensym {
            temps: rewrite_all(
                instruction_views(instructions@),
                spills@,
                old(frame).pointer as int,
                old(gensym).temps as int,
            ).temps as u32,
            ..*old(gensym)
        }),
        result.1@ == rewrite_all(
            instruction_views(instructions@),
            spills@,
            old(frame).pointer as int,
            old(gensym).temps as int,
        ).fresh,
{
    let ghost views = instruction_views(instructions@);
    let ghost pointer = frame.pointer as int;
    let ghost start = gensym.temps as int;
    let memory = lay_out(&spills, frame, gensym);
    let spilled = OrdSet::from_vec(&spills);
    let mut new_temps: OrdSet<Temp> = OrdSet::new();
    let mut gen = Gen::new();
    let mut index: usize = 0;
    while index < instructions.len()
        invariant
            index <= instructions@.len(),
            views == instruction_views(instructions@),
            spilled@ == spills@.to_set(),
            0 <= start,
            start + operand_count(views) <= u32::MAX,
            forall|temp: Temp|
                spills@.contains(temp) ==> #[trigger] slot_known(memory@, spills@, pointer, temp),
            gen.code() == rewrite_all(views.subrange(0, index as int), spills@, pointer, start).code,
            *gensym == (Gensym {
                temps: rewrite_all(views.subrange(0, index as int), spills@, pointer, start).temps as u32,
                ..*old(gensym)
            }),
            new_temps@ == rewrite_all(views.subrange(0, index as int), spills@, pointer, start).fresh,
        decreases instructions@.len() - index,
    {
        let ghost prefix = rewrite_all(views.subrange(0, index as int), spills@, pointer, start);
        let ghost view = instructions@[index as int]@;
        proof {
            let longer = views.subrange(0, index + 1);
            assert(longer.drop_last() =~= views.subrange(0, index as int));
            assert(longer.last() == view);
            lemma_rewrite_all_temps(views.subrange(0, index as int), spills@, pointer, start);
            lemma_rewrite_all_temps(longer, spills@, pointer, start);
            lemma_operand_count(views, index + 1);
            lemma_spilled_in(view, spills@.to_set());
        }
        let ghost before = gen.code();
        let instruction = &instructions[index];
        match instruction {
            Instruction::Label { assembly, label } => {
                let copy = Instruction::Label { assembly: assembly.clone(), label: label.copy() };
                assert(copy@ == view);
                gen.emit(copy);
                proof {
                    let one = rewrite_one(view, spills@, pointer, prefix.temps);
                    assert(spilled_in(view, spills@.to_set()) =~= Seq::<Temp>::empty());
                    assert(renamed(view.source(), Seq::empty(), prefix.temps) =~= view.source());
                    assert(one.code =~= seq![view]);
                    assert(gen.code() =~= before + one.code);
                    assert(new_temps@ =~= prefix.fresh.union(one.fresh));
                }
            },
            Instruction::Move { assembly, destination, source } => {
                let mut given: Vec<Temp> = Vec::new();
                gather(source, &spilled, &mut given);
                gather(destination, &spilled, &mut given);
                assert(given@ == spilled_in(view, spills@.to_set()));
                let first = gensym.temps;
                take_fresh(gensym, given.len(), &mut new_temps);
                emit_loads(&mut gen, &given, source, &memory, first, Ghost(spills@), Ghost(pointer));
                let copy = Instruction::Move {
                    assembly: assembly.clone(),
                    destination: rename(destination, &given, first),
                    source: rename(source, &given, first),
                };
                gen.emit(copy);
                emit_stores(
                    &mut gen,
                    &given,
                    destination,
                    &memory,
                    first,
                    Ghost(spills@),
                    Ghost(pointer),
                );
                proof {
                    let one = rewrite_one(view, spills@, pointer, prefix.temps);
                    assert(gen.code() =~= before + one.code);
                }
            },
            Instruction::Operation { assembly, destination, source, jump } => {
                let mut given: Vec<Temp> = Vec::new();
                gather(source, &spilled, &mut given);
                gather(destination, &spilled, &mut given);
                assert(given@ == spilled_in(view, spills@.to_set()));
                let first = gensym.temps;
                take_fresh(gensym, given.len(), &mut new_temps);
                emit_loads(&mut gen, &given, source, &memory, first, Ghost(spills@), Ghost(pointer));
                let copy = Instruction::Operation {
                    assembly: assembly.clone(),
                    destination: rename(destination, &given, first),
                    source: rename(source, &given, first),
                    jump: match jump {
                        Some(labels) => Some(copy_labels(labels)),
                        None => None,
                    },
                };
                gen.emit(copy);
                emit_stores(
                    &mut gen,
                    &given,
                    destination,
                    &memory,
                    first,
                    Ghost(spills@),
                    Ghost(pointer),
                );
                proof {
                    let one = rewrite_one(view, spills@, pointer, prefix.temps);
                    assert(gen.code() =~= before + one.code);
                }
            },
        }
        index = index + 1;
    }
    assert(views.subrange(0, index as int) =~= views);
    (gen.get_result(), new_temps)
}

/// Whether two instructions are alike but for their temporaries: both
/// the same label, or neither a label and both with the same branches.
pub open spec fn alike(first: InstructionView, second: InstructionView) -> bool {
    &&& first is Label == second is Label
    &&& first is Label ==> first->Label_label == second->Label_label
    &&& jump_labels(first) == jump_labels(second)
}

/// Whether an instruction like `instruction` stands somewhere in `list`.
pub open spec fn occurs_alike(list: Seq<InstructionView>, instruction: InstructionView) -> bool {
    exists|i: int| 0 <= i < list.len() && alike(#[trigger] list[i], instruction)
}

/// Whether the instruction is no label and branches nowhere.
pub open spec fn is_plain(instruction: InstructionView) -> bool {
    jump_labels(instruction).len() == 0 && !(instruction is Label)
}

/// Whether `code` holds an instruction like each of `instructions`, and
/// beside them only instructions that are no labels and branch nowhere.
pub open spec fn extends_plainly(code: Seq<InstructionView>, instructions: Seq<InstructionView>) -> bool {
    &&& forall|j: int| 0 <= j < instructions.len() ==> occurs_alike(code, #[trigger] instructions[j])
    &&& forall|i: int|
        0 <= i < code.len() ==> is_plain(#[trigger] code[i]) || occurs_alike(instructions, code[i])
}

/// Loads are no labels and branch nowhere.
pub proof fn lemma_loads_plain(
    given: Seq<Temp>,
    upto: int,
    read: Seq<Temp>,
    spills: Seq<Temp>,
    pointer: int,
    temps: int,
)
    ensures
        forall|i: int|
            0 <= i < loads(given, upto, read, spills, pointer, temps).len() ==> is_plain(
                #[trigger] loads(given, upto, read, spills, pointer, temps)[i],
            ),
    decreases upto,
{
    if upto > 0 {
        lemma_loads_plain(given, upto - 1, read, spills, pointer, temps);
        let before = loads(given, upto - 1, read, spills, pointer, temps);
        let all = loads(given, upto, read, spills, pointer, temps);
        assert forall|i: int| 0 <= i < all.len() implies is_plain(#[trigger] all[i]) by {
            if i < before.len() {
                assert(all[i] == before[i]);
            } else {
                assert(jump_labels(all[i]).len() == 0);
            }
        }
    }
}

/// Stores are no labels and branch nowhere.
pub proof fn lemma_stores_plain(
    given: Seq<Temp>,
    upto: int,
    written: Seq<Temp>,
    spills: Seq<Temp>,
    pointer: int,
    temps: int,
)
    ensures
        forall|i: int|
            0 <= i < stores(given, upto, written, spills, pointer, temps).len() ==> is_plain(
                #[trigger] stores(given, upto, written, spills, pointer, temps)[i],
            ),
    decreases upto,
{
    if upto > 0 {
        lemma_stores_plain(given, upto - 1, written, spills, pointer, temps);
        let before = stores(given, upto - 1, written, spills, pointer, temps);
        let all = stores(given, upto, written, spills, pointer, temps);
        assert forall|i: int| 0 <= i < all.len() implies is_plain(#[trigger] all[i]) by {
            if i < before.len() {
                assert(all[i] == before[i]);
            } else {
                assert(jump_labels(all[i]).len() == 0);
            }
        }
    }
}

/// Rewriting keeps an instruction like each one and adds only loads and
/// stores.
pub proof fn lemma_rewrite_extends(
    instructions: Seq<InstructionView>,
    spills: Seq<Temp>,
    pointer: int,
    temps: int,
)
    ensures
        extends_plainly(rewrite_all(instructions, spills, pointer, temps).code, instructions),
        rewrite_all(instructions, spills, pointer, temps).code.len() >= instructions.len(),
    decreases instructions.len(),
{
    let code = rewrite_all(instructions, spills, pointer, temps).code;
    if instructions.len() > 0 {
        let shorter = instructions.drop_last();
        let given = instructions[instructions.len() - 1];
        lemma_rewrite_extends(shorter, spills, pointer, temps);
        let before = rewrite_all(shorter, spills, pointer, temps);
        let last = rewrite_one(given, spills, pointer, before.temps);
        let found = spilled_in(given, spills.to_set());
        let count = found.len() as int;
        let first = loads(found, count, given.source(), spills, pointer, before.temps);
        let second = stores(found, count, given.destination(), spills, pointer, before.temps);
        lemma_loads_plain(found, count, given.source(), spills, pointer, before.temps);
        lemma_stores_plain(found, count, given.destination(), spills, pointer, before.temps);
        let own = (before.code.len() + first.len()) as int;
        assert(alike(code[own], given));
        assert forall|j: int| 0 <= j < instructions.len() implies occurs_alike(
            code,
            #[trigger] instructions[j],
        ) by {
            if j < shorter.len() {
                assert(occurs_alike(before.code, shorter[j]));
                let i = choose|i: int|
                    0 <= i < before.code.len() && alike(#[trigger] before.code[i], shorter[j]);
                assert(code[i] == before.code[i]);
            } else {
                assert(alike(code[own], instructions[j]));
            }
        }
        assert forall|i: int| 0 <= i < code.len() implies is_plain(#[trigger] code[i])
            || occurs_alike(instructions, code[i]) by {
            if i < before.code.len() {
                assert(code[i] == before.code[i]);
                if !is_plain(before.code[i]) {
                    assert(occurs_alike(shorter, before.code[i]));
                    let j = choose|j: int|
                        0 <= j < shorter.len() && alike(#[trigger] shorter[j], before.code[i]);
                    assert(instructions[j] == shorter[j]);
                }
            } else if i < own {
                assert(code[i] == first[i - before.code.len()]);
            } else if i == own {
                assert(alike(instructions[instructions.len() - 1], code[i]));
            } else {
                assert(code[i] == second[i - own - 1]);
            }
        }
    }
}

/// Rewriting leaves every label that is branched to in the list.
pub proof fn lemma_rewrite_jumps(
    instructions: Seq<InstructionView>,
    spills: Seq<Temp>,
    pointer: int,
    temps: int,
)
    requires
        jumps_defined(instructions),
    ensures
        jumps_defined(rewrite_all(instructions, spills, pointer, temps).code),
{
    let code = rewrite_all(instructions, spills, pointer, temps).code;
    lemma_rewrite_extends(instructions, spills, pointer, temps);
    assert forall|i: int, k: int|
        0 <= i < code.len() && 0 <= k < jump_labels(code[i]).len() implies label_position(
        code,
        #[trigger] jump_labels(code[i])[k],
    ) is Some by {
        let label = jump_labels(code[i])[k];
        assert(occurs_alike(instructions, code[i]));
        let j = choose|j: int| 0 <= j < instructions.len() && alike(#[trigger] instructions[j], code[i]);
        assert(label_position(instructions, jump_labels(instructions[j])[k]) is Some);
        lemma_label_position(instructions, label);
        let at = choose|at: int|
            0 <= at < instructions.len() && (#[trigger] instructions[at]) is Label
                && instructions[at]->Label_label == label;
        assert(occurs_alike(code, instructions[at]));
        let there = choose|there: int|
            0 <= there < code.len() && alike(#[trigger] code[there], instructions[at]);
        assert(code[there] is Label && code[there]->Label_label == label);
        lemma_label_position(code, label);
    }
}

/// How many temporaries the instructions read and write, as far as a
/// machine can hold the number.
pub fn count_operands(instructions: &Vec<Instruction>) -> (count: u64)
    ensures
        count == capped(operand_count(instruction_views(instructions@))),
{
    let ghost views = instruction_views(instructions@);
    let mut count: u64 = 0;
    let mut index: usize = 0;
    assert(views.subrange(0, 0) =~= Seq::<InstructionView>::empty());
    while index < instructions.len()
        invariant
            index <= instructions@.len(),
            views == instruction_views(instructions@),
            count == capped(operand_count(views.subrange(0, index as int))),
        decreases instructions@.len() - index,
    {
        proof {
            let longer = views.subrange(0, index + 1);
            assert(longer.drop_last() =~= views.subrange(0, index as int));
            assert(longer.last() == instructions@[index as int]@);
        }
        match &instructions[index] {
            Instruction::Label { .. } => {},
            Instruction::Move { destination, source, .. } => {
                count = add_capped(add_capped(count, source.len() as u64), destination.len() as u64);
            },
            Instruction::Operation { destination, source, .. } => {
                count = add_capped(add_capped(count, source.len() as u64), destination.len() as u64);
            },
        }
        index = index + 1;
    }
    assert(views.subrange(0, index as int) =~= views);
    count
}

} // verus!
