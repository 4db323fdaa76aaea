//! Abstract assembly: instructions over temporaries, with templates whose
//! placeholders are filled in when the instruction is printed.

use vstd::prelude::*;
use vstd::string::*;
use crate::frame::Frame;
use crate::ir::{copy_labels, label_views};
use crate::temp::{Label, LabelView, Temp};
use crate::text::{decimal, replace_all, replace_text, u64_to_string};

verus! {

/// An instruction of the abstract machine.
#[derive(Clone, Debug, PartialEq)]
pub enum Instruction {
    /// An operation; `jump` lists the labels it may branch to, if it branches.
    Operation { assembly: String, destination: Vec<Temp>, source: Vec<Temp>, jump: Option<Vec<Label>> },
    /// A label, printed as it stands.
    Label { assembly: String, label: Label },
    /// A move between temporaries, which the allocator may remove.
    Move { assembly: String, destination: Vec<Temp>, source: Vec<Temp> },
}

/// An instruction as a mathematical value.
pub enum InstructionView {
    Operation {
        assembly: Seq<char>,
        destination: Seq<Temp>,
        source: Seq<Temp>,
        jump: Option<Seq<LabelView>>,
    },
    Label { assembly: Seq<char>, label: LabelView },
    Move { assembly: Seq<char>, destination: Seq<Temp>, source: Seq<Temp> },
}

impl View for Instruction {
    type V = InstructionView;

    open spec fn view(&self) -> InstructionView {
        match *self {
            Instruction::Operation { assembly, destination, source, jump } => {
                InstructionView::Operation {
                    assembly: assembly@,
                    destination: destination@,
                    source: source@,
                    jump: match jump {
                        Some(labels) => Some(label_views(labels@)),
                        None => None,
                    },
                }
            },
            Instruction::Label { assembly, label } => InstructionView::Label {
                assembly: assembly@,
                label: label@,
            },
            Instruction::Move { assembly, destination, source } => InstructionView::Move {
                assembly: assembly@,
                destination: destination@,
                source: source@,
            },
        }
    }
}

impl InstructionView {
    /// The temporaries the instruction writes; none for a label.
    pub open spec fn destination(self) -> Seq<Temp> {
        match self {
            InstructionView::Operation { destination, .. } => destination,
            InstructionView::Label { .. } => Seq::empty(),
            InstructionView::Move { destination, .. } => destination,
        }
    }

    /// The temporaries the instruction reads; none for a label.
    pub open spec fn source(self) -> Seq<Temp> {
        match self {
            InstructionView::Operation { source, .. } => source,
            InstructionView::Label { .. } => Seq::empty(),
            InstructionView::Move { source, .. } => source,
        }
    }

    /// The template of the instruction.
    pub open spec fn assembly(self) -> Seq<char> {
        match self {
            InstructionView::Operation { assembly, .. } => assembly,
            InstructionView::Label { assembly, .. } => assembly,
            InstructionView::Move { assembly, .. } => assembly,
        }
    }

    /// The same instruction over other temporaries.
    pub open spec fn with_operands(self, destination: Seq<Temp>, source: Seq<Temp>) -> Self {
        match self {
            InstructionView::Operation { assembly, jump, .. } => InstructionView::Operation {
                assembly,
                destination,
                source,
                jump,
            },
            InstructionView::Label { .. } => self,
            InstructionView::Move { assembly, .. } => InstructionView::Move {
                assembly,
                destination,
                source,
            },
        }
    }
}

/// The views of a list of instructions.
pub open spec fn instruction_views(instructions: Seq<Instruction>) -> Seq<InstructionView> {
    Seq::new(instructions.len(), |i: int| instructions[i]@)
}

/// A copy of a list of temporaries.
pub fn copy_temps(temps: &Vec<Temp>) -> (copy: Vec<Temp>)
    ensures
        copy@ == temps@,
{
    let mut copy: Vec<Temp> = Vec::new();
    let mut index: usize = 0;
    while index < temps.len()
        invariant
            index <= temps@.len(),
            copy@ == temps@.subrange(0, index as int),
        decreases temps@.len() - index,
    {
        copy.push(temps[index]);
        assert(copy@ =~= temps@.subrange(0, index + 1));
        index = index + 1;
    }
    assert(copy@ =~= temps@);
    copy
}

/// The name under which a temporary is printed: that of its machine
/// register, or `t` and its number.
pub open spec fn temp_name<F: Frame>(temp: Temp) -> Seq<char> {
    match F::spec_special_name(temp) {
        Some(name) => name,
        None => temp.plain_name(),
    }
}

/// The template after the placeholders made of `marker` and the positions
/// `0`, `1`, ... of `temps` were replaced, in that order, by the temporaries'
/// names.
pub open spec fn fill_placeholders<F: Frame>(
    template: Seq<char>,
    marker: Seq<char>,
    temps: Seq<Temp>,
) -> Seq<char>
    decreases temps.len(),
{
    if temps.len() == 0 {
        template
    } else {
        replace_all(
            fill_placeholders::<F>(template, marker, temps.drop_last()),
            marker + decimal((temps.len() - 1) as nat),
            temp_name::<F>(temps.last()),
        )
    }
}

/// The text of an instruction: a label's text as it stands; otherwise the
/// template with the destination placeholders `'d0`, `'d1`, ... filled in
/// first and the source placeholders `'s0`, `'s1`, ... after them.
pub open spec fn instruction_text<F: Frame>(instruction: InstructionView) -> Seq<char> {
    match instruction {
        InstructionView::Label { assembly, .. } => assembly,
        _ => fill_placeholders::<F>(
            fill_placeholders::<F>(instruction.assembly(), seq!['\'', 'd'], instruction.destination()),
            seq!['\'', 's'],
            instruction.source(),
        ),
    }
}

/// Fills in the placeholders of one kind.
fn fill<F: Frame>(template: String, marker: &str, temps: &Vec<Temp>) -> (text: String)
    ensures
        text@ == fill_placeholders::<F>(template@, marker@, temps@),
{
    let ghost start = template@;
    let mut text = template;
    let mut index: usize = 0;
    while index < temps.len()
        invariant
            index <= temps@.len(),
            text@ == fill_placeholders::<F>(start, marker@, temps@.subrange(0, index as int)),
        decreases temps@.len() - index,
    {
        let mut placeholder = String::from_str(marker);
        let position = u64_to_string(index as u64);
        placeholder.append(position.as_str());
        let name = temps[index].to_string::<F>();
        proof {
            let shorter = temps@.subrange(0, index as int);
            let longer = temps@.subrange(0, index + 1);
            assert(longer.drop_last() =~= shorter);
            assert(longer.last() == temps@[index as int]);
            assert(placeholder@.len() > 0);
        }
        text = replace_text(text.as_str(), placeholder.as_str(), name.as_str());
        index = index + 1;
    }
    assert(temps@.subrange(0, index as int) =~= temps@);
    text
}

impl Instruction {
    /// A copy of the instruction.
    pub fn copy(&self) -> (copy: Instruction)
        ensures
            copy@ == self@,
    {
        match self {
            Instruction::Operation { assembly, destination, source, jump } => {
                Instruction::Operation {
                    assembly: assembly.clone(),
                    destination: copy_temps(destination),
                    source: copy_temps(source),
                    jump: match jump {
                        Some(labels) => Some(copy_labels(labels)),
                        None => None,
                    },
                }
            },
            Instruction::Label { assembly, label } => Instruction::Label {
                assembly: assembly.clone(),
                label: label.copy(),
            },
            Instruction::Move { assembly, destination, source } => Instruction::Move {
                assembly: assembly.clone(),
                destination: copy_temps(destination),
                source: copy_temps(source),
            },
        }
    }

    /// Prints the instruction with the names of the frame's registers.
    pub fn to_string<F: Frame>(&self) -> (text: String)
        ensures
            text@ == instruction_text::<F>(self@),
    {
        proof {
            reveal_strlit("'d");
            reveal_strlit("'s");
            assert("'d"@ =~= seq!['\'', 'd']);
            assert("'s"@ =~= seq!['\'', 's']);
        }
        match self {
            Instruction::Label { assembly, .. } => assembly.clone(),
            Instruction::Move { assembly, destination, source } => {
                let text = fill::<F>(assembly.clone(), "'d", destination);
                fill::<F>(text, "'s", source)
            },
            Instruction::Operation { assembly, destination, source, .. } => {
                let text = fill::<F>(assembly.clone(), "'d", destination);
                fill::<F>(text, "'s", source)
            },
        }
    }
}

/// A function's instructions between the text that opens and the text that
/// closes it.
#[derive(Debug)]
pub struct Subroutine {
    pub prolog: String,
    pub body: Vec<Instruction>,
    pub epilog: String,
}

} // verus!
