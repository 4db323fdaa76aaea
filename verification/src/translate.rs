//! Nesting levels: the frame of a function with the levels of the
//! functions it is nested in.

use vstd::prelude::*;
use crate::frame::Frame;
use crate::temp::{Gensym, Label, LabelView};

verus! {

/// The frame of a function and the level of the function that encloses it.
pub struct Level<F: Frame> {
    pub current: F,
    pub parent: Option<Box<Level<F>>>,
}

/// The level of the program itself: a frame without formals under a fresh
/// label, enclosed by nothing.
pub fn outermost<F: Frame>(gensym: &mut Gensym) -> (level: Level<F>)
    requires
        old(gensym).labels < u32::MAX,
        F::admits(
            Seq::empty(),
            Gensym { labels: (old(gensym).labels + 1) as u32, ..*old(gensym) },
        ),
    ensures
        level.parent is None,
        level.current.wf(),
        level.current.label() == LabelView::Num((old(gensym).labels + 1) as u32),
        level.current.accesses().len() == 0,
        final(gensym).labels == old(gensym).labels + 1,
        final(gensym).temps >= old(gensym).temps,
        final(gensym).uniques == old(gensym).uniques,
{
    let label = Label::new(gensym);
    Level { current: F::new(label, Vec::new(), gensym), parent: None }
}

impl<F: Frame> Level<F> {
    /// The level of a function declared in `parent`: its frame has one
    /// formal more than the function has parameters, the static link,
    /// which escapes.
    pub fn new(parent: Level<F>, name: Label, formals: Vec<bool>, gensym: &mut Gensym) -> (level:
        Level<F>)
        requires
            F::admits(formals@.push(true), *old(gensym)),
        ensures
            level.parent == Some(Box::new(parent)),
            level.current.wf(),
            level.current.label() == name@,
            level.current.accesses().len() == formals@.len() + 1,
            final(gensym).labels == old(gensym).labels,
            final(gensym).temps >= old(gensym).temps,
            final(gensym).uniques == old(gensym).uniques,
    {
        let mut formals = formals;
        formals.push(true);
        Level { current: F::new(name, formals, gensym), parent: Some(Box::new(parent)) }
    }

    /// Where the formals live, each with the label of this level's frame.
    pub fn formals(&self) -> (formals: Vec<(Label, F::Access)>)
        ensures
            formals@.len() == self.current.accesses().len(),
            forall|i: int|
                0 <= i < formals@.len() ==> (#[trigger] formals@[i]).0@ == self.current.label()
                    && formals@[i].1 == self.current.accesses()[i],
    {
        let accesses = self.current.formals();
        let mut formals: Vec<(Label, F::Access)> = Vec::new();
        let mut index: usize = 0;
        while index < accesses.len()
            invariant
                index <= accesses@.len(),
                accesses@ == self.current.accesses(),
                formals@.len() == index,
                forall|i: int|
                    0 <= i < index ==> (#[trigger] formals@[i]).0@ == self.current.label()
                        && formals@[i].1 == accesses@[i],
            decreases accesses@.len() - index,
        {
            formals.push((self.current.name(), accesses[index]));
            index = index + 1;
        }
        formals
    }
}

/// A place for a new local of the function at `level`, with the label of
/// the level's frame.
pub fn alloc_local<F: Frame>(level: &mut Level<F>, escape: bool, gensym: &mut Gensym) -> (access: (
    Label,
    F::Access,
))
    requires
        old(level).current.wf(),
        escape ==> old(level).current.room() > 0,
        !escape ==> old(gensym).temps < u32::MAX,
    ensures
        access.0@ == old(level).current.label(),
        final(level).parent == old(level).parent,
        final(level).current.wf(),
        final(level).current.label() == old(level).current.label(),
        final(level).current.accesses() == old(level).current.accesses(),
        escape ==> final(level).current.room() == old(level).current.room() - 1 && *final(gensym)
            == *old(gensym),
        !escape ==> final(level).current.room() == old(level).current.room() && *final(gensym) == (
        Gensym { temps: (old(gensym).temps + 1) as u32, ..*old(gensym) }),
{
    let local = level.current.alloc_local(escape, gensym);
    (level.current.name(), local)
}

} // verus!
