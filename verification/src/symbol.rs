//! Symbols: numbers that stand for names, and tables with scopes that map
//! symbols to what they are bound to.

use std::collections::HashMap;
use vstd::prelude::*;
use vstd::string::*;
use crate::position::WithPos;

verus! {

/// The number that stands for a name.
pub type Symbol = i64;

/// A symbol with the place in the source it came from.
pub type SymbolWithPos = WithPos<Symbol>;

/// The names that have a symbol; the symbol of a name is its position.
#[derive(Debug)]
pub struct Strings {
    pub strings: Vec<String>,
}

/// The names as mathematical values.
pub open spec fn names_of(strings: Seq<String>) -> Seq<Seq<char>> {
    Seq::new(strings.len(), |i: int| strings[i]@)
}

impl View for Strings {
    type V = Seq<Seq<char>>;

    open spec fn view(&self) -> Seq<Seq<char>> {
        names_of(self.strings@)
    }
}

impl Strings {
    /// No name has two symbols, and every symbol fits the machine.
    pub open spec fn wf(&self) -> bool {
        &&& self@.no_duplicates()
        &&& self@.len() <= i64::MAX
    }

    /// The table without names.
    pub fn new() -> (strings: Self)
        ensures
            strings@ == Seq::<Seq<char>>::empty(),
            strings.wf(),
    {
        let strings = Strings { strings: Vec::new() };
        assert(strings@ =~= Seq::<Seq<char>>::empty());
        strings
    }

    /// The name of a symbol, if it has one.
    pub fn get(&self, symbol: Symbol) -> (name: Option<String>)
        ensures
            match name {
                Some(name) => 0 <= symbol < self@.len() && name@ == self@[symbol as int],
                None => !(0 <= symbol < self@.len()),
            },
    {
        if symbol >= 0 && (symbol as u64) < self.strings.len() as u64 {
            assert(self.strings.len() == self@.len());
            Some(self.strings[symbol as usize].clone())
        } else {
            None
        }
    }

    /// The symbol of a name; a new one if the name has none yet.
    pub fn symbol(&mut self, string: &str) -> (symbol: Symbol)
        requires
            old(self).wf(),
            old(self)@.len() < i64::MAX,
        ensures
            final(self).wf(),
            0 <= symbol < final(self)@.len(),
            final(self)@[symbol as int] == string@,
            old(self)@.contains(string@) ==> final(self)@ == old(self)@,
            !old(self)@.contains(string@) ==> final(self)@ == old(self)@.push(string@),
    {
        let mut index: usize = 0;
        while index < self.strings.len()
            invariant
                index <= self.strings@.len(),
                self.strings@ == old(self).strings@,
                self.wf(),
                self@.len() < i64::MAX,
                self@.len() == self.strings@.len(),
                forall|i: int| 0 <= i < index ==> (#[trigger] self@[i]) != string@,
            decreases self.strings@.len() - index,
        {
            let found = same_text(self.strings[index].as_str(), string);
            if found {
                assert(self@[index as int] == string@);
                return index as i64;
            }
            index = index + 1;
        }
        assert(!self@.contains(string@));
        self.strings.push(String::from_str(string));
        assert(self@ =~= old(self)@.push(string@));
        assert(self@.no_duplicates()) by {
            assert forall|i: int, j: int|
                0 <= i < self@.len() && 0 <= j < self@.len() && i != j implies self@[i]
                != self@[j] by {
                if i < old(self)@.len() && j < old(self)@.len() {
                    assert(old(self)@[i] != old(self)@[j]);
                }
            }
        }
        index as i64
    }
}

/// Whether two texts are equal.
pub fn same_text(first: &str, second: &str) -> (equal: bool)
    ensures
        equal == (first@ == second@),
{
    let first = String::from_str(first);
    let second = String::from_str(second);
    first == second
}

/// A table from symbols to what they are bound to, with scopes: a binding
/// hides the earlier ones of its symbol until its scope ends.
pub struct Symbols<T> {
    pub stack: Vec<Vec<Symbol>>,
    pub table: HashMap<Symbol, Vec<T>>,
}

impl<T> Symbols<T> {
    /// The bindings of a symbol, the latest last.
    pub open spec fn bindings(&self, symbol: Symbol) -> Seq<T> {
        if self.table@.contains_key(symbol) {
            self.table@[symbol]@
        } else {
            Seq::empty()
        }
    }

    /// The symbols bound in each open scope, the innermost scope last.
    pub open spec fn scopes(&self) -> Seq<Seq<Symbol>> {
        Seq::new(self.stack@.len(), |i: int| self.stack@[i]@)
    }

    /// What a symbol is bound to, if it is bound.
    pub open spec fn bound(&self, symbol: Symbol) -> Option<T> {
        if self.bindings(symbol).len() > 0 {
            Some(self.bindings(symbol).last())
        } else {
            None
        }
    }

    /// The table with one scope and no bindings.
    pub fn new() -> (symbols: Self)
        ensures
            symbols.scopes() == seq![Seq::<Symbol>::empty()],
            forall|symbol: Symbol| symbols.bindings(symbol) == Seq::<T>::empty(),
    {
        let mut symbols = Symbols { stack: Vec::new(), table: HashMap::new() };
        symbols.begin_scope();
        symbols
    }

    /// Opens a scope.
    pub fn begin_scope(&mut self)
        ensures
            final(self).scopes() == old(self).scopes().push(Seq::<Symbol>::empty()),
            final(self).table == old(self).table,
    {
        self.stack.push(Vec::new());
        assert(self.scopes() =~= old(self).scopes().push(Seq::<Symbol>::empty()));
    }

    /// Binds `symbol` to `data` in the innermost scope.
    pub fn enter(&mut self, symbol: Symbol, data: T)
        requires
            old(self).scopes().len() > 0,
        ensures
            final(self).bindings(symbol) == old(self).bindings(symbol).push(data),
            forall|other: Symbol|
                other != symbol ==> final(self).bindings(other) == old(self).bindings(other),
            final(self).scopes() == old(self).scopes().drop_last().push(
                old(self).scopes().last().push(symbol),
            ),
            final(self).bound(symbol) == Some(data),
    {
        let mut bindings = match self.table.remove(&symbol) {
            Some(bindings) => bindings,
            None => Vec::new(),
        };
        bindings.push(data);
        self.table.insert(symbol, bindings);
        let last = self.stack.len() - 1;
        self.stack[last].push(symbol);
        assert(self.scopes() =~= old(self).scopes().drop_last().push(
            old(self).scopes().last().push(symbol),
        ));
    }

    /// What `symbol` is bound to, if it is bound.
    pub fn look(&self, symbol: Symbol) -> (data: Option<&T>)
        ensures
            match data {
                Some(data) => self.bound(symbol) == Some(*data),
                None => self.bound(symbol) is None,
            },
    {
        match self.table.get(&symbol) {
            Some(bindings) => {
                if bindings.len() > 0 {
                    Some(&bindings[bindings.len() - 1])
                } else {
                    None
                }
            },
            None => None,
        }
    }

    /// Puts `data` in place of what `symbol` is bound to.
    pub fn replace(&mut self, symbol: Symbol, data: T)
        requires
            old(self).bound(symbol) is Some,
        ensures
            final(self).bindings(symbol) == old(self).bindings(symbol).drop_last().push(data),
            forall|other: Symbol|
                other != symbol ==> final(self).bindings(other) == old(self).bindings(other),
            final(self).stack == old(self).stack,
            final(self).bound(symbol) == Some(data),
    {
        let mut bindings = match self.table.remove(&symbol) {
            Some(bindings) => bindings,
            None => Vec::new(),
        };
        bindings.pop();
        bindings.push(data);
        self.table.insert(symbol, bindings);
    }

    /// Takes away the latest binding of `symbol`, if it has one.
    fn unbind(&mut self, symbol: Symbol)
        ensures
            final(self).bindings(symbol) == if old(self).bindings(symbol).len() > 0 {
                old(self).bindings(symbol).drop_last()
            } else {
                old(self).bindings(symbol)
            },
            forall|other: Symbol|
                other != symbol ==> final(self).bindings(other) == old(self).bindings(other),
            final(self).stack == old(self).stack,
    {
        match self.table.remove(&symbol) {
            Some(bindings) => {
                let mut bindings = bindings;
                bindings.pop();
                self.table.insert(symbol, bindings);
            },
            None => {},
        }
    }

    /// The bindings of `symbol` without as many of the latest as `symbol`
    /// stands in `scope`.
    pub open spec fn unwound(bindings: Seq<T>, scope: Seq<Symbol>, symbol: Symbol) -> Seq<T>
        decreases scope.len(),
    {
        if scope.len() == 0 {
            bindings
        } else {
            let before = Self::unwound(bindings, scope.drop_last(), symbol);
            if scope.last() == symbol && before.len() > 0 {
                before.drop_last()
            } else {
                before
            }
        }
    }

    /// Closes the innermost scope: every binding made in it is taken away.
    pub fn end_scope(&mut self)
        requires
            old(self).scopes().len() > 0,
        ensures
            final(self).scopes() == old(self).scopes().drop_last(),
            forall|symbol: Symbol|
                final(self).bindings(symbol) == Self::unwound(
                    old(self).bindings(symbol),
                    old(self).scopes().last(),
                    symbol,
                ),
    {
        let scope = match self.stack.pop() {
            Some(scope) => scope,
            None => Vec::new(),
        };
        assert(self.scopes() =~= old(self).scopes().drop_last());
        assert(scope@ == old(self).scopes().last());
        let mut index: usize = 0;
        while index < scope.len()
            invariant
                index <= scope@.len(),
                self.scopes() == old(self).scopes().drop_last(),
                forall|symbol: Symbol|
                    self.bindings(symbol) == Self::unwound(
                        old(self).bindings(symbol),
                        scope@.subrange(0, index as int),
                        symbol,
                    ),
            decreases scope@.len() - index,
        {
            let symbol = scope[index];
            proof {
                let longer = scope@.subrange(0, index + 1);
                assert(longer.drop_last() =~= scope@.subrange(0, index as int));
                assert(longer.last() == symbol);
            }
            self.unbind(symbol);
            assert(self.scopes() =~= old(self).scopes().drop_last());
            index = index + 1;
        }
        assert(scope@.subrange(0, index as int) =~= scope@);
    }

    /// The name of a symbol that has one.
    pub fn name(&self, strings: &Strings, symbol: Symbol) -> (name: String)
        requires
            0 <= symbol < strings@.len(),
        ensures
            name@ == strings@[symbol as int],
    {
        assert(strings.strings.len() == strings@.len());
        strings.strings[symbol as usize].clone()
    }

    /// The symbol of a name; a new one if the name has none yet.
    pub fn symbol(&mut self, strings: &mut Strings, string: &str) -> (symbol: Symbol)
        requires
            old(strings).wf(),
            old(strings)@.len() < i64::MAX,
        ensures
            final(strings).wf(),
            0 <= symbol < final(strings)@.len(),
            final(strings)@[symbol as int] == string@,
            old(strings)@.contains(string@) ==> final(strings)@ == old(strings)@,
            !old(strings)@.contains(string@) ==> final(strings)@ == old(strings)@.push(string@),
            *final(self) == *old(self),
    {
        strings.symbol(string)
    }
}

} // verus!
