//! From the body of a function to its instructions with registers: the
//! steps of the back end, one after the other, as long as the supplies of
//! temporaries and labels and the frame suffice.

use vstd::prelude::*;
use crate::assem::{instruction_views, Instruction, Subroutine};
use crate::canon::{blocks_of, canon_stm, canonicalize, fresh_label, scheduled, split};
use crate::codegen::{munch_stm, Emitted, Gen};
use crate::flow::{jumps_are_defined, jumps_defined};
use crate::frame::x86_64::X86_64;
use crate::frame::Frame;
use crate::ir::{statement_views, Statement, StatementView};
use crate::reg_alloc::{allocate_registers, allocated, initial_temps, outcome_of, Outcome};
use crate::registers::{all_machine, properly_coloured};
use crate::simplest_reg_alloc::{simplest_allocate, spill_list, spills_of, staged_all};
use crate::supply::{
    lemma_canon_stm_weight, lemma_munch_stm_weight, stm_weight, weight_of_statement,
};
use crate::symbol::same_text;
use crate::temp::Gensym;

verus! {

/// How registers are found for the temporaries.
#[derive(Clone, Copy, Debug, PartialEq, Eq)]
pub enum Strategy {
    /// By colouring the interference graph.
    Color,
    /// By giving every temporary a slot in the frame.
    Simple,
}

/// The strategy that a flag of the command line asks for: the simple one
/// for `-simplealloc`, colouring for `-coloralloc`, none for anything else.
pub fn strategy_of(flag: &str) -> (strategy: Option<Strategy>)
    ensures
        strategy == if flag@ == "-simplealloc"@ {
            Some(Strategy::Simple)
        } else if flag@ == "-coloralloc"@ {
            Some(Strategy::Color)
        } else {
            None
        },
{
    if same_text(flag, "-simplealloc") {
        Some(Strategy::Simple)
    } else if same_text(flag, "-coloralloc") {
        Some(Strategy::Color)
    } else {
        None
    }
}

/// The instructions selected for the statements, one after the other, when
/// the supply's last temporary was `temps`; nothing if the supply may not
/// suffice for one of them: if it has fewer temporaries left than the
/// statement weighs.
pub open spec fn selected(stms: Seq<StatementView>, temps: int) -> Option<Emitted>
    decreases stms.len(),
{
    if stms.len() == 0 {
        Some(Emitted { code: Seq::empty(), temps })
    } else {
        match selected(stms.drop_last(), temps) {
            Some(before) => {
                if before.temps + stm_weight(stms.last()) > u32::MAX {
                    None
                } else {
                    let last = munch_stm(stms.last(), before.temps);
                    Some(Emitted { code: before.code + last.code, temps: last.temps })
                }
            },
            None => None,
        }
    }
}

/// Selects the instructions of the statements; gives nothing if the supply
/// of temporaries may not suffice.
pub fn select(statements: &Vec<Statement>, gensym: &mut Gensym) -> (code: Option<Vec<Instruction>>)
    ensures
        match selected(statement_views(statements@), old(gensym).temps as int) {
            Some(emitted) => code matches Some(instructions) && instruction_views(instructions@)
                == emitted.code && final(gensym).temps == emitted.temps,
            None => code is None,
        },
        final(gensym).temps >= old(gensym).temps,
        final(gensym).labels == old(gensym).labels,
        final(gensym).uniques == old(gensym).uniques,
{
    let ghost views = statement_views(statements@);
    let ghost start = gensym.temps as int;
    let mut generator = Gen::new();
    let mut index: usize = 0;
    while index < statements.len()
        invariant
            index <= statements@.len(),
            views == statement_views(statements@),
            selected(views.subrange(0, index as int), start) == Some(
                Emitted { code: generator.code(), temps: gensym.temps as int },
            ),
            gensym.temps >= start,
            start == old(gensym).temps,
            gensym.labels == old(gensym).labels,
            gensym.uniques == old(gensym).uniques,
        decreases statements@.len() - index,
    {
        proof {
            let longer = views.subrange(0, index + 1);
            assert(longer.drop_last() =~= views.subrange(0, index as int));
            assert(longer.last() == statements@[index as int]@);
            lemma_munch_stm_weight(statements@[index as int]@, gensym.temps as int);
            crate::codegen::lemma_munch_stm_grows(statements@[index as int]@, gensym.temps as int);
        }
        let weight = weight_of_statement(&statements[index]);
        if weight > (u32::MAX - gensym.temps) as u64 {
            proof {
                assert(selected(views.subrange(0, index + 1), start) is None);
                lemma_selected_fails(views, index + 1, start);
            }
            return None;
        }
        generator.munch_statement(&statements[index], gensym);
        index = index + 1;
    }
    assert(views.subrange(0, index as int) =~= views);
    Some(generator.get_result())
}

/// Once the supply does not suffice for the first statements, it does not
/// for all of them.
pub proof fn lemma_selected_fails(stms: Seq<StatementView>, upto: int, temps: int)
    requires
        0 <= upto <= stms.len(),
        selected(stms.subrange(0, upto), temps) is None,
    ensures
        selected(stms, temps) is None,
    decreases stms.len() - upto,
{
    if upto < stms.len() {
        let longer = stms.subrange(0, upto + 1);
        assert(longer.drop_last() =~= stms.subrange(0, upto));
        lemma_selected_fails(stms, upto + 1, temps);
    } else {
        assert(stms.subrange(0, upto) =~= stms);
    }
}

/// The statements that stand for a statement in canonical form: made
/// canonical, cut into basic blocks, and the blocks laid out in traces.
pub open spec fn canonical_form(statement: StatementView, gensym: Gensym) -> Seq<StatementView> {
    let flat = canon_stm(statement, gensym.temps as int).stms;
    scheduled(
        blocks_of(flat, fresh_label(gensym.labels as int), gensym.labels + 1),
        fresh_label(gensym.labels as int),
        split(flat, gensym.labels + 1).labels,
    )
}

/// Whether the supplies suffice to wrap the body of a function of the
/// frame and to bring it into canonical form: six temporaries for the
/// registers to save, and as many temporaries, and twice as many labels and
/// one, as the wrapped body weighs.
pub open spec fn admitted(frame: X86_64, body: StatementView, gensym: Gensym) -> bool {
    &&& gensym.temps + 6 <= u32::MAX
    &&& gensym.temps + 6 + stm_weight(frame.spec_entry_exit1(body, gensym)) <= u32::MAX
    &&& gensym.labels + 2 * stm_weight(frame.spec_entry_exit1(body, gensym)) + 1 <= u32::MAX
}

/// The instructions selected for the body of a function of the frame, with
/// what keeps the registers alive; nothing if the supplies do not suffice.
pub open spec fn selected_body(frame: X86_64, body: StatementView, gensym: Gensym) -> Option<Emitted> {
    if admitted(frame, body, gensym) {
        let wrapped = frame.spec_entry_exit1(body, gensym);
        let supply = Gensym { temps: (gensym.temps + 6) as u32, ..gensym };
        match selected(
            canonical_form(wrapped, supply),
            canon_stm(wrapped, supply.temps as int).temps,
        ) {
            Some(emitted) => Some(
                Emitted { code: X86_64::spec_entry_exit2(emitted.code), temps: emitted.temps },
            ),
            None => None,
        }
    } else {
        None
    }
}

/// Whether `outcome` is what finding registers by `strategy` ends with for
/// the instructions in a frame with the pointer at `pointer` and room for
/// `room` more slots: by colouring, what the allocator ends with, with
/// machine registers only, those of a colouring where the supply has
/// handed out the machine registers and the words of the machine count
/// far enough, or nothing if a branch leads to a label that is not there;
/// by the simple strategy, the staged instructions, with a slot
/// for each temporary read or written, or nothing if the frame has no room
/// for them.
pub open spec fn placed(
    strategy: Strategy,
    emitted: Emitted,
    pointer: int,
    room: nat,
    outcome: Outcome,
) -> bool {
    match strategy {
        Strategy::Color => {
            if jumps_defined(emitted.code) {
                &&& allocated(
                    emitted.code,
                    initial_temps(emitted.code),
                    pointer,
                    emitted.temps,
                    initial_temps(emitted.code).len(),
                    outcome,
                )
                &&& outcome.code matches Some(code) ==> all_machine(code)
                &&& emitted.temps >= 16 && 0x1_0000_0010 <= usize::MAX ==> (outcome.code matches Some(
                    code,
                ) ==> properly_coloured(code))
            } else {
                outcome == (Outcome { code: None, pointer, temps: emitted.temps })
            }
        },
        Strategy::Simple => {
            if spill_list(emitted.code).len() <= room {
                outcome == (Outcome {
                    code: Some(staged_all(emitted.code, spill_list(emitted.code), pointer)),
                    pointer: pointer - 8 * spill_list(emitted.code).len(),
                    temps: emitted.temps,
                })
            } else {
                outcome == (Outcome { code: None, pointer, temps: emitted.temps })
            }
        },
    }
}

/// What compiling ended with, given what it gave and how it left the frame
/// and the supply.
pub open spec fn compiled(result: Option<Subroutine>, frame: X86_64, gensym: Gensym) -> Outcome {
    Outcome {
        code: match result {
            Some(subroutine) => Some(instruction_views(subroutine.body@)),
            None => None,
        },
        pointer: frame.pointer as int,
        temps: gensym.temps as int,
    }
}

/// Wraps the body of a function of the frame and brings it into canonical
/// form. Gives nothing if the supplies of temporaries or labels may not
/// suffice.
pub fn canonical_body(body: Statement, frame: &mut X86_64, gensym: &mut Gensym) -> (result: Option<
    Vec<Statement>,
>)
    requires
        old(frame).wf(),
    ensures
        result is Some == admitted(*old(frame), body@, *old(gensym)),
        result matches Some(statements) ==> {
            let wrapped = old(frame).spec_entry_exit1(body@, *old(gensym));
            let supply = Gensym { temps: (old(gensym).temps + 6) as u32, ..*old(gensym) };
            &&& statement_views(statements@) == canonical_form(wrapped, supply)
            &&& final(gensym).temps == canon_stm(wrapped, supply.temps as int).temps
        },
        *final(frame) == *old(frame),
        final(gensym).uniques == old(gensym).uniques,
{
    if gensym.temps > u32::MAX - 6 {
        return None;
    }
    let ghost supply = Gensym { temps: (gensym.temps + 6) as u32, ..*gensym };
    let ghost wrapped_view = frame.spec_entry_exit1(body@, *gensym);
    let wrapped = frame.proc_entry_exit1(body, gensym);
    let weight = weight_of_statement(&wrapped);
    if weight > (u32::MAX - gensym.temps) as u64 {
        return None;
    }
    if 2 * weight + 1 > (u32::MAX - gensym.labels) as u64 {
        return None;
    }
    proof {
        lemma_canon_stm_weight(wrapped_view, supply.temps as int);
    }
    Some(canonicalize(wrapped, gensym))
}

/// Wraps the body of a function of the frame, brings it into canonical
/// form, selects the instructions and marks the registers that stay alive.
/// Gives nothing if the supplies of temporaries or labels may not suffice.
pub fn select_body(body: Statement, frame: &mut X86_64, gensym: &mut Gensym) -> (result: Option<
    Vec<Instruction>,
>)
    requires
        old(frame).wf(),
    ensures
        match selected_body(*old(frame), body@, *old(gensym)) {
            Some(emitted) => result matches Some(instructions) && instruction_views(instructions@)
                == emitted.code && final(gensym).temps == emitted.temps,
            None => result is None,
        },
        result matches Some(instructions) ==> instructions@.len() > 0,
        *final(frame) == *old(frame),
        final(gensym).uniques == old(gensym).uniques,
{
    let statements = match canonical_body(body, frame, gensym) {
        Some(statements) => statements,
        None => {
            return None;
        },
    };
    let code = match select(&statements, gensym) {
        Some(code) => code,
        None => {
            return None;
        },
    };
    proof {
        crate::frame::x86_64::lemma_mark_live(instruction_views(code@), 0);
    }
    let instructions = frame.proc_entry_exit2(code);
    Some(instructions)
}

/// Finds registers for the temporaries of the instructions by `strategy`.
/// Gives nothing if a branch leads to a label that is not there, if the
/// allocator gives nothing, or if the frame has no room.
pub fn place(instructions: Vec<Instruction>, frame: &mut X86_64, strategy: Strategy, gensym: &mut Gensym) -> (result:
    Option<Vec<Instruction>>)
    requires
        old(frame).wf(),
        instructions@.len() > 0,
    ensures
        placed(
            strategy,
            Emitted { code: instruction_views(instructions@), temps: old(gensym).temps as int },
            old(frame).pointer as int,
            old(frame).room(),
            outcome_of(result, *final(frame), *final(gensym)),
        ),
        final(frame).wf(),
        final(frame).name == old(frame).name,
        final(frame).formals == old(frame).formals,
        final(gensym).uniques == old(gensym).uniques,
{
    match strategy {
        Strategy::Color => {
            if !jumps_are_defined(&instructions) {
                return None;
            }
            allocate_registers(instructions, frame, gensym)
        },
        Strategy::Simple => {
            let spills = spills_of(&instructions);
            if !frame.has_room(spills.len()) {
                return None;
            }
            Some(simplest_allocate(instructions, frame, gensym))
        },
    }
}

/// Compiles the body of a function: wraps it in what saves the registers
/// and moves the parameters into place, brings it into canonical form,
/// selects the instructions, marks the registers that stay alive, finds
/// registers by `strategy`, and puts the result between the function's
/// prologue and epilogue. Gives nothing if the supplies of temporaries or
/// labels or the frame do not suffice.
pub fn compile_function(body: Statement, frame: &mut X86_64, strategy: Strategy, gensym: &mut Gensym) -> (result:
    Option<Subroutine>)
    requires
        old(frame).wf(),
    ensures
        match selected_body(*old(frame), body@, *old(gensym)) {
            Some(emitted) => placed(
                strategy,
                emitted,
                old(frame).pointer as int,
                old(frame).room(),
                compiled(result, *final(frame), *final(gensym)),
            ),
            None => result is None && *final(frame) == *old(frame),
        },
        result matches Some(subroutine) ==> subroutine.prolog@ == final(frame).spec_prolog()
            && subroutine.epilog@ == final(frame).spec_epilog(),
        final(frame).wf(),
        final(frame).name == old(frame).name,
        final(frame).formals == old(frame).formals,
        final(gensym).uniques == old(gensym).uniques,
{
    let instructions = match select_body(body, frame, gensym) {
        Some(instructions) => instructions,
        None => {
            return None;
        },
    };
    match place(instructions, frame, strategy, gensym) {
        Some(allocated) => Some(frame.proc_entry_exit3(allocated)),
        None => None,
    }
}

} // verus!
