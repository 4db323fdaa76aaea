//! Temporaries (virtual registers), labels and the supply of fresh names.

use vstd::prelude::*;
use vstd::string::*;
use crate::assem::temp_name;
use crate::frame::Frame;
use crate::text::{decimal, u64_to_string};

verus! {

/// The number of the last temporary that is reserved for a machine register.
pub const LAST_MACHINE_TEMP: u32 = 16;

/// A virtual register, identified by its number.
#[derive(Clone, Copy, Debug, PartialEq, Eq, Structural, Hash, PartialOrd, Ord)]
pub struct Temp {
    pub num: u32,
}

/// A jump target: a named symbol or a numbered, generated label.
#[derive(Clone, Debug, PartialEq, Eq, Hash)]
pub enum Label {
    Named(String),
    Num(u32),
}

/// What a label is, as a mathematical value.
pub enum LabelView {
    Named(Seq<char>),
    Num(u32),
}

impl LabelView {
    /// The text of a label: the name itself, or `l` and the number.
    pub open spec fn text(self) -> Seq<char> {
        match self {
            LabelView::Named(name) => name,
            LabelView::Num(num) => seq!['l'] + decimal(num as nat),
        }
    }
}

impl View for Label {
    type V = LabelView;

    open spec fn view(&self) -> LabelView {
        match *self {
            Label::Named(name) => LabelView::Named(name@),
            Label::Num(num) => LabelView::Num(num),
        }
    }
}

/// The supply of fresh names of one compilation: the last number handed out
/// for a temporary, for a numbered label, and the next identity of a record
/// or array type.
#[derive(Clone, Copy, Debug)]
pub struct Gensym {
    pub temps: u32,
    pub labels: u32,
    pub uniques: u64,
}

impl Gensym {
    /// A supply from which nothing was taken: fresh temporaries start above
    /// the ones reserved for machine registers, labels at one.
    pub fn new() -> (gensym: Gensym)
        ensures
            gensym.temps == LAST_MACHINE_TEMP,
            gensym.labels == 0,
            gensym.uniques == 0,
    {
        Gensym { temps: LAST_MACHINE_TEMP, labels: 0, uniques: 0 }
    }

    /// How many more temporaries the supply can hand out.
    pub open spec fn temps_left(&self) -> int {
        u32::MAX - self.temps
    }

    /// How many more temporaries the supply can hand out.
    pub fn remaining_temps(&self) -> (left: u32)
        ensures
            left == self.temps_left(),
    {
        u32::MAX - self.temps
    }
}

impl Temp {
    /// Takes the next temporary from the supply.
    pub fn new(gensym: &mut Gensym) -> (temp: Temp)
        requires
            old(gensym).temps < u32::MAX,
        ensures
            temp.num == old(gensym).temps + 1,
            *final(gensym) == (Gensym { temps: temp.num, ..*old(gensym) }),
    {
        gensym.temps = gensym.temps + 1;
        Temp { num: gensym.temps }
    }

    /// The text of a temporary that is no machine register: `t` and its number.
    pub open spec fn plain_name(self) -> Seq<char> {
        seq!['t'] + decimal(self.num as nat)
    }

    /// Renders the temporary: the name of its machine register, or `t` and
    /// its number.
    pub fn to_string<F: Frame>(&self) -> (name: String)
        ensures
            name@ == temp_name::<F>(*self),
    {
        match F::special_name(*self) {
            Some(text) => String::from_str(text),
            None => self.to_plain_string(),
        }
    }

    /// Renders a temporary that is no machine register.
    pub fn to_plain_string(&self) -> (name: String)
        ensures
            name@ == self.plain_name(),
    {
        proof {
            reveal_strlit("t");
        }
        let mut name = String::from_str("t");
        let digits = u64_to_string(self.num as u64);
        name.append(digits.as_str());
        assert(name@ =~= self.plain_name());
        name
    }
}

impl Label {
    /// Takes the next numbered label from the supply.
    pub fn new(gensym: &mut Gensym) -> (label: Label)
        requires
            old(gensym).labels < u32::MAX,
        ensures
            label == Label::Num((old(gensym).labels + 1) as u32),
            *final(gensym) == (Gensym { labels: (old(gensym).labels + 1) as u32, ..*old(gensym) }),
    {
        gensym.labels = gensym.labels + 1;
        Label::Num(gensym.labels)
    }

    /// The label of a named symbol.
    pub fn with_name(name: &str) -> (label: Label)
        ensures
            label@ == LabelView::Named(name@),
    {
        Label::Named(String::from_str(name))
    }

    /// The name of a named label.
    pub fn to_name(&self) -> (name: String)
        requires
            self is Named,
        ensures
            self == Label::Named(name),
    {
        match self {
            Label::Named(name) => name.clone(),
            Label::Num(_) => String::new(),
        }
    }

    /// A copy of the label.
    pub fn copy(&self) -> (label: Label)
        ensures
            label == *self,
    {
        match self {
            Label::Named(name) => Label::Named(name.clone()),
            Label::Num(num) => Label::Num(*num),
        }
    }

    /// Whether two labels name the same target.
    pub fn same(&self, other: &Label) -> (equal: bool)
        ensures
            equal == (self@ == other@),
    {
        match self {
            Label::Named(name) => match other {
                Label::Named(other_name) => {
                    let equal = *name == *other_name;
                    equal
                },
                Label::Num(_) => false,
            },
            Label::Num(num) => match other {
                Label::Named(_) => false,
                Label::Num(other_num) => *num == *other_num,
            },
        }
    }

    /// The text of a label: the name itself, or `l` and the number.
    pub open spec fn text(self) -> Seq<char> {
        self@.text()
    }

    /// Renders the label as it stands in assembly.
    pub fn to_string(&self) -> (text: String)
        ensures
            text@ == self.text(),
    {
        match self {
            Label::Named(name) => name.clone(),
            Label::Num(num) => {
                proof {
                    reveal_strlit("l");
                }
                let mut text = String::from_str("l");
                let digits = u64_to_string(*num as u64);
                text.append(digits.as_str());
                assert(text@ =~= self.text());
                text
            },
        }
    }
}

} // verus!
