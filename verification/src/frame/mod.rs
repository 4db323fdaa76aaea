//! Stack frames: what the rest of the compiler has to know of the target
//! machine and of the layout of one function's activation record.

use vstd::prelude::*;
use crate::assem::{Instruction, InstructionView, Subroutine, instruction_views};
use crate::ir::{Exp, ExpView, Statement, StatementView, exp_views};
use crate::temp::{Gensym, Label, LabelView, Temp};

pub mod x86_64;

verus! {

/// What the front end hands over: a function's body with its frame, or a
/// string literal with the label given to it.
pub enum Fragment<F: Frame> {
    Function { body: Statement, frame: F },
    Str(Label, String),
}

/// A target machine's registers and the frame of one function.
pub trait Frame: Sized {
    /// Where a variable lives.
    type Access: Copy;

    /// The size of a machine word in bytes.
    spec fn spec_word_size() -> int;

    /// The size of a machine word in bytes.
    fn word_size() -> (size: i64)
        ensures
            size == Self::spec_word_size(),
    ;

    /// The machine's registers, in the order in which colours are tried.
    spec fn spec_registers() -> Seq<Temp>;

    /// The machine's registers.
    fn registers() -> (registers: Vec<Temp>)
        ensures
            registers@ == Self::spec_registers(),
    ;

    /// The number of registers the allocator may hand out.
    spec fn spec_register_count() -> nat;

    /// The number of registers the allocator may hand out.
    fn register_count() -> (count: usize)
        ensures
            count == Self::spec_register_count(),
    ;

    /// The name of the machine register that a temporary stands for; `None`
    /// for one that is no machine register.
    spec fn spec_special_name(temp: Temp) -> Option<Seq<char>>;

    /// The name of the machine register that a temporary stands for.
    fn special_name(temp: Temp) -> (name: Option<&'static str>)
        ensures
            match name {
                Some(text) => Self::spec_special_name(temp) == Some(text@),
                None => Self::spec_special_name(temp) is None,
            },
    ;

    /// The temporaries that stand for machine registers, each with the
    /// register's name.
    fn temp_map() -> (map: Vec<(Temp, &'static str)>)
        ensures
            forall|i: int|
                0 <= i < map@.len() ==> Self::spec_special_name((#[trigger] map@[i]).0) == Some(
                    map@[i].1@,
                ),
            forall|temp: Temp|
                Self::spec_special_name(temp) is Some ==> exists|i: int|
                    0 <= i < map@.len() && (#[trigger] map@[i]).0 == temp,
    ;

    /// The frame pointer.
    spec fn spec_fp() -> Temp;

    /// The frame pointer.
    fn fp() -> (temp: Temp)
        ensures
            temp == Self::spec_fp(),
    ;

    /// The register in which a function hands back its result.
    spec fn spec_return_value() -> Temp;

    /// The register in which a function hands back its result.
    fn return_value() -> (temp: Temp)
        ensures
            temp == Self::spec_return_value(),
    ;

    /// The frame is within the machine's limits.
    spec fn wf(&self) -> bool;

    /// The label at which the function is entered.
    spec fn label(&self) -> LabelView;

    /// Where the formal parameters live.
    spec fn accesses(&self) -> Seq<Self::Access>;

    /// How many more escaping locals the frame has room for.
    spec fn room(&self) -> nat;

    /// Whether a frame for these formals can be laid out with this supply
    /// of names.
    spec fn admits(formals: Seq<bool>, gensym: Gensym) -> bool;

    /// The frame of a function with the given entry label; `formals` says of
    /// each parameter whether it escapes.
    fn new(name: Label, formals: Vec<bool>, gensym: &mut Gensym) -> (frame: Self)
        requires
            Self::admits(formals@, *old(gensym)),
        ensures
            frame.wf(),
            frame.label() == name@,
            frame.accesses().len() == formals@.len(),
            final(gensym).labels == old(gensym).labels,
            final(gensym).uniques == old(gensym).uniques,
            final(gensym).temps >= old(gensym).temps,
    ;

    /// The label at which the function is entered.
    fn name(&self) -> (name: Label)
        ensures
            name@ == self.label(),
    ;

    /// Where the formal parameters live.
    fn formals(&self) -> (formals: &Vec<Self::Access>)
        ensures
            formals@ == self.accesses(),
    ;

    /// Whether the frame has room for `slots` more escaping locals.
    fn has_room(&self, slots: usize) -> (enough: bool)
        requires
            self.wf(),
        ensures
            enough == (slots <= self.room()),
    ;

    /// A place for a new local: in the frame if it escapes, else in a fresh
    /// temporary.
    fn alloc_local(&mut self, escape: bool, gensym: &mut Gensym) -> (access: Self::Access)
        requires
            old(self).wf(),
            escape ==> old(self).room() > 0,
            !escape ==> old(gensym).temps < u32::MAX,
        ensures
            final(self).wf(),
            final(self).label() == old(self).label(),
            final(self).accesses() == old(self).accesses(),
            escape ==> final(self).room() == old(self).room() - 1 && *final(gensym) == *old(
                gensym,
            ),
            !escape ==> final(self).room() == old(self).room() && *final(gensym) == (Gensym {
                temps: (old(gensym).temps + 1) as u32,
                ..*old(gensym)
            }),
    ;

    /// The expression that reads or writes the variable, given the
    /// expression of the frame it lives in.
    spec fn spec_exp(access: Self::Access, stack_frame: ExpView) -> ExpView;

    /// The expression that reads or writes the variable.
    fn exp(&self, access: Self::Access, stack_frame: Exp) -> (exp: Exp)
        ensures
            exp@ == Self::spec_exp(access, stack_frame@),
    ;

    /// A call of a function of the runtime library.
    fn external_call(name: &str, arguments: Vec<Exp>) -> (call: Exp)
        ensures
            call@ == ExpView::Call(
                Box::new(ExpView::Name(LabelView::Named(name@))),
                exp_views(arguments@),
            ),
    ;

    /// Whether the body of the function can be wrapped with this supply of
    /// names.
    spec fn entry_admits(&self, gensym: Gensym) -> bool;

    /// The body between what saves and what restores the callee-saved
    /// registers, with the parameters moved to where the body expects them.
    spec fn spec_entry_exit1(&self, statement: StatementView, gensym: Gensym) -> StatementView;

    /// Wraps the body of the function: saves the callee-saved registers,
    /// moves the parameters into place, and restores the registers at the end.
    fn proc_entry_exit1(&mut self, statement: Statement, gensym: &mut Gensym) -> (wrapped:
        Statement)
        requires
            old(self).wf(),
            old(self).entry_admits(*old(gensym)),
        ensures
            wrapped@ == old(self).spec_entry_exit1(statement@, *old(gensym)),
            final(self).wf(),
            final(self).label() == old(self).label(),
            final(self).accesses() == old(self).accesses(),
            final(self).room() == old(self).room(),
    ;

    /// The instructions with what keeps the registers alive that must
    /// survive the function.
    spec fn spec_entry_exit2(instructions: Seq<InstructionView>) -> Seq<InstructionView>;

    /// Marks the registers that are live at the function's entry and exit.
    fn proc_entry_exit2(&self, instructions: Vec<Instruction>) -> (marked: Vec<Instruction>)
        ensures
            instruction_views(marked@) == Self::spec_entry_exit2(instruction_views(instructions@)),
    ;

    /// The text that opens the function.
    spec fn spec_prolog(&self) -> Seq<char>;

    /// The text that closes the function.
    spec fn spec_epilog(&self) -> Seq<char>;

    /// Puts the body between the function's prologue and epilogue.
    fn proc_entry_exit3(&self, body: Vec<Instruction>) -> (subroutine: Subroutine)
        requires
            self.wf(),
        ensures
            subroutine.prolog@ == self.spec_prolog(),
            subroutine.body == body,
            subroutine.epilog@ == self.spec_epilog(),
    ;
}

} // verus!
