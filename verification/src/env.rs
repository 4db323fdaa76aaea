//! The environments of the semantic analysis: what is known of the
//! escaping of variables, the types and the values that the names in scope
//! stand for.

use vstd::prelude::*;
use vstd::string::*;
use crate::escape::EscapeEnv;
use crate::frame::Frame;
use crate::symbol::{Strings, Symbol, Symbols};
use crate::temp::{Gensym, Label, LabelView};
use crate::translate::{outermost, Level};
use crate::types::Type;

verus! {

/// What a name of a value stands for.
pub enum Entry<F: Frame> {
    Fun { external: bool, label: Label, level: Level<F>, parameters: Vec<Type>, result: Type },
    Var { access: (Label, F::Access), typ: Type },
    Error,
}

/// The three environments.
pub struct Env<F: Frame> {
    pub escape_env: EscapeEnv,
    pub type_env: Symbols<Type>,
    pub var_env: Symbols<Entry<F>>,
}

/// A function of the runtime library: its name, the types of its parameters
/// and the type of its result.
pub struct External {
    pub name: &'static str,
    pub parameters: Vec<Type>,
    pub result: Type,
}

/// The functions of the runtime library.
pub fn external_functions() -> (functions: Vec<External>)
    ensures
        functions@.len() == 14,
        functions@[0].name@ == "print"@ && functions@[0].parameters@ == seq![Type::String]
            && functions@[0].result == Type::Unit,
        functions@[1].name@ == "printi"@ && functions@[1].parameters@ == seq![Type::Int]
            && functions@[1].result == Type::Unit,
        functions@[2].name@ == "flush"@ && functions@[2].parameters@ == Seq::<Type>::empty()
            && functions@[2].result == Type::Unit,
        functions@[3].name@ == "getchar"@ && functions@[3].parameters@ == Seq::<Type>::empty()
            && functions@[3].result == Type::String,
        functions@[4].name@ == "ord"@ && functions@[4].parameters@ == seq![Type::String]
            && functions@[4].result == Type::Int,
        functions@[5].name@ == "chr"@ && functions@[5].parameters@ == seq![Type::Int]
            && functions@[5].result == Type::String,
        functions@[6].name@ == "size"@ && functions@[6].parameters@ == seq![Type::String]
            && functions@[6].result == Type::Int,
        functions@[7].name@ == "substring"@ && functions@[7].parameters@ == seq![
            Type::String,
            Type::Int,
            Type::Int,
        ] && functions@[7].result == Type::String,
        functions@[8].name@ == "concat"@ && functions@[8].parameters@ == seq![
            Type::String,
            Type::String,
        ] && functions@[8].result == Type::String,
        functions@[9].name@ == "not"@ && functions@[9].parameters@ == seq![Type::Int]
            && functions@[9].result == Type::Int,
        functions@[10].name@ == "exit"@ && functions@[10].parameters@ == seq![Type::Int]
            && functions@[10].result == Type::Unit,
        functions@[11].name@ == "stringEqual"@ && functions@[11].parameters@ == seq![
            Type::String,
            Type::String,
        ] && functions@[11].result == Type::Int,
        functions@[12].name@ == "malloc"@ && functions@[12].parameters@ == seq![Type::Int]
            && functions@[12].result == Type::Int,
        functions@[13].name@ == "initArray"@ && functions@[13].parameters@ == seq![
            Type::Int,
            Type::Int,
        ] && functions@[13].result == Type::Int,
{
    let functions = vec![
        External { name: "print", parameters: vec![Type::String], result: Type::Unit },
        External { name: "printi", parameters: vec![Type::Int], result: Type::Unit },
        External { name: "flush", parameters: Vec::new(), result: Type::Unit },
        External { name: "getchar", parameters: Vec::new(), result: Type::String },
        External { name: "ord", parameters: vec![Type::String], result: Type::Int },
        External { name: "chr", parameters: vec![Type::Int], result: Type::String },
        External { name: "size", parameters: vec![Type::String], result: Type::Int },
        External {
            name: "substring",
            parameters: vec![Type::String, Type::Int, Type::Int],
            result: Type::String,
        },
        External {
            name: "concat",
            parameters: vec![Type::String, Type::String],
            result: Type::String,
        },
        External { name: "not", parameters: vec![Type::Int], result: Type::Int },
        External { name: "exit", parameters: vec![Type::Int], result: Type::Unit },
        External {
            name: "stringEqual",
            parameters: vec![Type::String, Type::String],
            result: Type::Int,
        },
        External { name: "malloc", parameters: vec![Type::Int], result: Type::Int },
        External { name: "initArray", parameters: vec![Type::Int, Type::Int], result: Type::Int },
    ];
    assert(functions@[0].parameters@ =~= seq![Type::String]);
    assert(functions@[1].parameters@ =~= seq![Type::Int]);
    assert(functions@[4].parameters@ =~= seq![Type::String]);
    assert(functions@[5].parameters@ =~= seq![Type::Int]);
    assert(functions@[6].parameters@ =~= seq![Type::String]);
    assert(functions@[7].parameters@ =~= seq![Type::String, Type::Int, Type::Int]);
    assert(functions@[8].parameters@ =~= seq![Type::String, Type::String]);
    assert(functions@[9].parameters@ =~= seq![Type::Int]);
    assert(functions@[10].parameters@ =~= seq![Type::Int]);
    assert(functions@[11].parameters@ =~= seq![Type::String, Type::String]);
    assert(functions@[12].parameters@ =~= seq![Type::Int]);
    assert(functions@[13].parameters@ =~= seq![Type::Int, Type::Int]);
    functions
}

/// Whether `entry` is the entry of the external function `name`.
pub open spec fn is_external<F: Frame>(entry: Entry<F>, name: Seq<char>, parameters: Seq<Type>, result: Type) -> bool {
    &&& entry is Fun
    &&& entry->external
    &&& entry->label@ == LabelView::Named(name)
    &&& entry->parameters@ == parameters
    &&& entry->result == result
}

impl<F: Frame> Env<F> {
    /// Whether every environment has an open scope.
    pub open spec fn wf(&self) -> bool {
        &&& self.type_env.scopes().len() > 0
        &&& self.var_env.scopes().len() > 0
    }

    /// The environments at the start of the analysis: the types `int` and
    /// `string`, and the functions of the runtime library.
    pub fn new(strings: &mut Strings, escape_env: EscapeEnv, gensym: &mut Gensym) -> (env: Self)
        requires
            old(strings).wf(),
            old(strings)@.len() + 16 < i64::MAX,
            old(gensym).labels + 14 <= u32::MAX,
            forall|supply: Gensym| #[trigger] F::admits(Seq::empty(), supply),
        ensures
            env.wf(),
            env.escape_env == escape_env,
            final(strings).wf(),
            final(strings)@.len() <= old(strings)@.len() + 16,
            final(gensym).labels == old(gensym).labels + 14,
            exists|symbol: Symbol|
                0 <= symbol < final(strings)@.len() && final(strings)@[symbol as int] == "int"@
                    && #[trigger] env.type_env.bindings(symbol).contains(Type::Int),
            exists|symbol: Symbol|
                0 <= symbol < final(strings)@.len() && final(strings)@[symbol as int] == "string"@
                    && #[trigger] env.type_env.bindings(symbol).contains(Type::String),
    {
        let mut type_env: Symbols<Type> = Symbols::new();
        let int_symbol = type_env.symbol(strings, "int");
        type_env.enter(int_symbol, Type::Int);
        let ghost with_int = type_env.bindings(int_symbol);
        assert(with_int.last() == Type::Int);
        let string_symbol = type_env.symbol(strings, "string");
        type_env.enter(string_symbol, Type::String);
        proof {
            let with_string = type_env.bindings(string_symbol);
            assert(with_string.last() == Type::String);
            if int_symbol == string_symbol {
                assert(with_string[with_string.len() - 2] == Type::Int);
            } else {
                assert(type_env.bindings(int_symbol) == with_int);
            }
        }
        let ghost int_at = int_symbol;
        let ghost string_at = string_symbol;
        let ghost named = strings@;
        let mut env = Env { escape_env, type_env, var_env: Symbols::new() };
        let functions = external_functions();
        let mut functions = functions;
        let mut count: usize = 0;
        while functions.len() > 0
            invariant
                count + functions@.len() == 14,
                env.wf(),
                env.escape_env == escape_env,
                strings.wf(),
                strings@.len() <= old(strings)@.len() + 2 + count,
                old(strings)@.len() + 16 < i64::MAX,
                gensym.labels == old(gensym).labels + count,
                old(gensym).labels + 14 <= u32::MAX,
                forall|supply: Gensym| #[trigger] F::admits(Seq::empty(), supply),
                0 <= int_at < named.len() && named[int_at as int] == "int"@,
                0 <= string_at < named.len() && named[string_at as int] == "string"@,
                named.len() <= strings@.len(),
                forall|i: int| 0 <= i < named.len() ==> strings@[i] == named[i],
                env.type_env.bindings(int_at).contains(Type::Int),
                env.type_env.bindings(string_at).contains(Type::String),
            decreases functions@.len(),
        {
            let function = match functions.pop() {
                Some(function) => function,
                None => External { name: "", parameters: Vec::new(), result: Type::Unit },
            };
            let ghost before = strings@;
            env.add_function(strings, function.name, function.parameters, function.result, gensym);
            proof {
                assert forall|i: int| 0 <= i < named.len() implies strings@[i] == named[i] by {
                    assert(before[i] == named[i]);
                }
            }
            count = count + 1;
        }
        env
    }

    /// Binds the name of an external function to its entry, with a level
    /// of its own.
    pub fn add_function(
        &mut self,
        strings: &mut Strings,
        name: &str,
        parameters: Vec<Type>,
        result: Type,
        gensym: &mut Gensym,
    )
        requires
            old(self).wf(),
            old(strings).wf(),
            old(strings)@.len() < i64::MAX,
            old(gensym).labels < u32::MAX,
            forall|supply: Gensym| #[trigger] F::admits(Seq::empty(), supply),
        ensures
            final(self).wf(),
            final(self).escape_env == old(self).escape_env,
            final(self).type_env == old(self).type_env,
            final(strings).wf(),
            old(strings)@.contains(name@) ==> final(strings)@ == old(strings)@,
            !old(strings)@.contains(name@) ==> final(strings)@ == old(strings)@.push(name@),
            final(gensym).labels == old(gensym).labels + 1,
            exists|symbol: Symbol|
                0 <= symbol < final(strings)@.len() && final(strings)@[symbol as int] == name@
                    && final(self).var_env.bound(symbol) is Some && #[trigger] is_external(
                    final(self).var_env.bound(symbol)->0,
                    name@,
                    parameters@,
                    result,
                ),
    {
        let symbol = self.var_env.symbol(strings, name);
        let entry = Entry::Fun {
            external: true,
            label: Label::with_name(name),
            level: outermost(gensym),
            parameters,
            result,
        };
        self.var_env.enter(symbol, entry);
        assert(is_external(self.var_env.bound(symbol)->0, name@, parameters@, result));
    }

    /// Opens a scope for types and values.
    pub fn begin_scope(&mut self)
        ensures
            final(self).escape_env == old(self).escape_env,
            final(self).type_env.scopes() == old(self).type_env.scopes().push(Seq::empty()),
            final(self).type_env.table == old(self).type_env.table,
            final(self).var_env.scopes() == old(self).var_env.scopes().push(Seq::empty()),
            final(self).var_env.table == old(self).var_env.table,
    {
        self.type_env.begin_scope();
        self.var_env.begin_scope();
    }

    /// Closes the innermost scope of types and values.
    pub fn end_scope(&mut self)
        requires
            old(self).wf(),
        ensures
            final(self).escape_env == old(self).escape_env,
            final(self).type_env.scopes() == old(self).type_env.scopes().drop_last(),
            final(self).var_env.scopes() == old(self).var_env.scopes().drop_last(),
            forall|symbol: Symbol|
                final(self).type_env.bindings(symbol) == Symbols::<Type>::unwound(
                    old(self).type_env.bindings(symbol),
                    old(self).type_env.scopes().last(),
                    symbol,
                ),
            forall|symbol: Symbol|
                final(self).var_env.bindings(symbol) == Symbols::<Entry<F>>::unwound(
                    old(self).var_env.bindings(symbol),
                    old(self).var_env.scopes().last(),
                    symbol,
                ),
    {
        self.type_env.end_scope();
        self.var_env.end_scope();
    }

    /// Binds the name of a type.
    pub fn enter_type(&mut self, symbol: Symbol, typ: Type)
        requires
            old(self).wf(),
        ensures
            final(self).wf(),
            final(self).escape_env == old(self).escape_env,
            final(self).var_env == old(self).var_env,
            final(self).type_env.bound(symbol) == Some(typ),
            final(self).type_env.bindings(symbol) == old(self).type_env.bindings(symbol).push(typ),
            forall|other: Symbol|
                other != symbol ==> final(self).type_env.bindings(other) == old(
                    self,
                ).type_env.bindings(other),
    {
        self.type_env.enter(symbol, typ);
    }

    /// Binds the name of a value.
    pub fn enter_var(&mut self, symbol: Symbol, data: Entry<F>)
        requires
            old(self).wf(),
        ensures
            final(self).wf(),
            final(self).escape_env == old(self).escape_env,
            final(self).type_env == old(self).type_env,
            final(self).var_env.bound(symbol) == Some(data),
            final(self).var_env.bindings(symbol) == old(self).var_env.bindings(symbol).push(data),
            forall|other: Symbol|
                other != symbol ==> final(self).var_env.bindings(other) == old(
                    self,
                ).var_env.bindings(other),
    {
        self.var_env.enter(symbol, data);
    }

    /// Whether the variable `symbol`, of which the escape analysis knows,
    /// escapes.
    pub fn look_escape(&self, symbol: Symbol) -> (escape: bool)
        requires
            self.escape_env.bound(symbol) is Some,
        ensures
            escape == self.escape_env.bound(symbol)->0.escape,
    {
        match self.escape_env.look(symbol) {
            Some(var) => var.escape,
            None => false,
        }
    }

    /// The type that `symbol` names, if it names one.
    pub fn look_type(&self, symbol: Symbol) -> (typ: Option<&Type>)
        ensures
            match typ {
                Some(typ) => self.type_env.bound(symbol) == Some(*typ),
                None => self.type_env.bound(symbol) is None,
            },
    {
        self.type_env.look(symbol)
    }

    /// The value that `symbol` names, if it names one.
    pub fn look_var(&self, symbol: Symbol) -> (entry: Option<&Entry<F>>)
        ensures
            match entry {
                Some(entry) => self.var_env.bound(symbol) == Some(*entry),
                None => self.var_env.bound(symbol) is None,
            },
    {
        self.var_env.look(symbol)
    }

    /// Puts `typ` in place of the type that `symbol` names.
    pub fn replace_type(&mut self, symbol: Symbol, typ: Type)
        requires
            old(self).type_env.bound(symbol) is Some,
        ensures
            final(self).escape_env == old(self).escape_env,
            final(self).var_env == old(self).var_env,
            final(self).type_env.stack == old(self).type_env.stack,
            final(self).type_env.bound(symbol) == Some(typ),
            final(self).type_env.bindings(symbol) == old(self).type_env.bindings(
                symbol,
            ).drop_last().push(typ),
            forall|other: Symbol|
                other != symbol ==> final(self).type_env.bindings(other) == old(
                    self,
                ).type_env.bindings(other),
    {
        self.type_env.replace(symbol, typ);
    }

    /// The name of the symbol of a type.
    pub fn name_of_type(&self, strings: &Strings, symbol: Symbol) -> (name: String)
        requires
            0 <= symbol < strings@.len(),
        ensures
            name@ == strings@[symbol as int],
    {
        self.type_env.name(strings, symbol)
    }

    /// The symbol of the name of a type.
    pub fn type_symbol(&mut self, strings: &mut Strings, string: &str) -> (symbol: Symbol)
        requires
            old(strings).wf(),
            old(strings)@.len() < i64::MAX,
        ensures
            final(strings).wf(),
            0 <= symbol < final(strings)@.len(),
            final(strings)@[symbol as int] == string@,
            old(strings)@.contains(string@) ==> final(strings)@ == old(strings)@,
            !old(strings)@.contains(string@) ==> final(strings)@ == old(strings)@.push(string@),
            *final(self) == *old(self),
    {
        self.type_env.symbol(strings, string)
    }

    /// The name of the symbol of a value.
    pub fn var_name(&self, strings: &Strings, symbol: Symbol) -> (name: String)
        requires
            0 <= symbol < strings@.len(),
        ensures
            name@ == strings@[symbol as int],
    {
        self.var_env.name(strings, symbol)
    }
}

} // verus!
