//! The escape analysis: which variables are used in a function nested in
//! the one that declares them, and so have to live in the frame.

use vstd::prelude::*;
use crate::ast::{
    Declaration, DeclarationWithPos, Expr, ExprWithPos, FieldWithPos, FuncDeclarationWithPos,
    RecordFieldWithPos, Var, VarWithPos,
};
use crate::symbol::{Symbol, Symbols};

verus! {

/// The depth of the function in which a variable is declared, and whether
/// the variable is used in a function nested in that one, so that it has
/// to live in the frame.
#[derive(Clone, Copy, Debug, PartialEq, Eq, Structural)]
pub struct DepthEscape {
    pub depth: u32,
    pub escape: bool,
}

/// The table of what is known of each variable.
pub type EscapeEnv = Symbols<DepthEscape>;

/// What the analysis knows: the bindings of every symbol, the latest
/// last, and the symbols bound so far, in the order in which they were
/// bound.
pub struct Found {
    pub bindings: Map<Symbol, Seq<DepthEscape>>,
    pub entered: Seq<Symbol>,
}

/// What a table holds: the bindings of every symbol and the symbols bound
/// in its innermost scope.
pub open spec fn found_in(env: EscapeEnv) -> Found {
    Found {
        bindings: Map::new(|symbol: Symbol| true, |symbol: Symbol| env.bindings(symbol)),
        entered: env.scopes().last(),
    }
}

/// What is known once `symbol` is declared at `depth`: it has a new
/// binding, which does not escape.
pub open spec fn declared(found: Found, symbol: Symbol, depth: int) -> Found {
    Found {
        bindings: found.bindings.insert(
            symbol,
            found.bindings[symbol].push(DepthEscape { depth: depth as u32, escape: false }),
        ),
        entered: found.entered.push(symbol),
    }
}

/// What is known once `symbol` is used at `depth`: if it is bound and was
/// declared at a lesser depth, it escapes.
pub open spec fn used(found: Found, symbol: Symbol, depth: int) -> Found {
    let bindings = found.bindings[symbol];
    if bindings.len() > 0 && depth > bindings.last().depth {
        Found {
            bindings: found.bindings.insert(
                symbol,
                bindings.drop_last().push(
                    DepthEscape { depth: bindings.last().depth, escape: true },
                ),
            ),
            ..found
        }
    } else {
        found
    }
}

/// What is known once each of the first `upto` parameters is declared at
/// `depth`.
pub open spec fn declared_all(found: Found, params: Seq<FieldWithPos>, upto: int, depth: int) -> Found
    decreases upto,
{
    if upto <= 0 || upto > params.len() {
        found
    } else {
        declared(declared_all(found, params, upto - 1, depth), params[upto - 1].node.name, depth)
    }
}

/// What is known after a variable at `depth`: its root is used there, and
/// the expressions of its subscripts are gone through.
pub open spec fn after_var(found: Found, var: VarWithPos, depth: int) -> Found
    decreases var, 0int,
{
    match var.node {
        Var::Field { ident, .. } => used(found, ident.node, depth),
        Var::Simple { ident } => used(found, ident.node, depth),
        Var::Subscript { expr, this } => after_exp(after_var(found, *this, depth), *expr, depth),
    }
}

/// What is known after the first `upto` expressions of a list at `depth`.
pub open spec fn after_exps(found: Found, exprs: Vec<ExprWithPos>, upto: int, depth: int) -> Found
    decreases exprs, upto,
{
    if upto <= 0 || upto > exprs@.len() {
        found
    } else {
        after_exp(after_exps(found, exprs, upto - 1, depth), exprs@[upto - 1], depth)
    }
}

/// What is known after the values of the first `upto` fields of a record
/// at `depth`.
pub open spec fn after_fields(found: Found, fields: Vec<RecordFieldWithPos>, upto: int, depth: int) -> Found
    decreases fields, upto,
{
    if upto <= 0 || upto > fields@.len() {
        found
    } else {
        after_exp(after_fields(found, fields, upto - 1, depth), fields@[upto - 1].node.expr, depth)
    }
}

/// What is known after the first `upto` functions of a group declared at
/// `depth`: the parameters of each are declared at `depth`, and its body is
/// gone through one level deeper.
pub open spec fn after_functions(
    found: Found,
    functions: Vec<FuncDeclarationWithPos>,
    upto: int,
    depth: int,
) -> Found
    decreases functions, upto,
{
    if upto <= 0 || upto > functions@.len() {
        found
    } else {
        let function = functions@[upto - 1].node;
        let before = after_functions(found, functions, upto - 1, depth);
        after_exp(
            declared_all(before, function.params@, function.params@.len() as int, depth),
            function.body,
            depth + 1,
        )
    }
}

/// What is known after a declaration at `depth`: after the functions of a
/// group; or, for a variable, after its value, gone through one level
/// deeper, and with the variable declared at `depth`.
pub open spec fn after_dec(found: Found, declaration: DeclarationWithPos, depth: int) -> Found
    decreases declaration, 0int,
{
    match declaration.node {
        Declaration::Function(functions) => after_functions(
            found,
            functions,
            functions@.len() as int,
            depth,
        ),
        Declaration::Type(_) => found,
        Declaration::VariableDeclaration { init, name, .. } => declared(
            after_exp(found, init, depth + 1),
            name,
            depth,
        ),
    }
}

/// What is known after the first `upto` declarations of a list at `depth`.
pub open spec fn after_decs(found: Found, declarations: Vec<DeclarationWithPos>, upto: int, depth: int) -> Found
    decreases declarations, upto,
{
    if upto <= 0 || upto > declarations@.len() {
        found
    } else {
        after_dec(
            after_decs(found, declarations, upto - 1, depth),
            declarations@[upto - 1],
            depth,
        )
    }
}

/// What is known after an expression at `depth`: after its parts, from
/// left to right, the variable of an assignment before its value and the
/// size of an array before its first value.
pub open spec fn after_exp(found: Found, expr: ExprWithPos, depth: int) -> Found
    decreases expr, 0int,
{
    match expr.node {
        Expr::Array { init, size, .. } => after_exp(after_exp(found, *size, depth), *init, depth),
        Expr::Assign { expr, var } => after_exp(after_var(found, var, depth), *expr, depth),
        Expr::Break => found,
        Expr::Call { args, .. } => after_exps(found, args, args@.len() as int, depth),
        Expr::If { else_, test, then_ } => {
            let before = after_exp(after_exp(found, *test, depth), *then_, depth);
            match else_ {
                Some(other) => after_exp(before, *other, depth),
                None => before,
            }
        },
        Expr::Int { .. } => found,
        Expr::Let { body, declarations } => after_exp(
            after_decs(found, declarations, declarations@.len() as int, depth),
            *body,
            depth,
        ),
        Expr::Nil => found,
        Expr::Oper { left, right, .. } => after_exp(after_exp(found, *left, depth), *right, depth),
        Expr::Record { fields, .. } => after_fields(found, fields, fields@.len() as int, depth),
        Expr::Sequence(exprs) => after_exps(found, exprs, exprs@.len() as int, depth),
        Expr::Str { .. } => found,
        Expr::Variable(var) => after_var(found, var, depth),
        Expr::While { body, test } => after_exp(after_exp(found, *test, depth), *body, depth),
    }
}

/// The greater of two numbers.
pub open spec fn larger(first: nat, second: nat) -> nat {
    if first >= second {
        first
    } else {
        second
    }
}

/// How many levels deeper than a variable the analysis goes inside it.
pub open spec fn var_nesting(var: VarWithPos) -> nat
    decreases var, 0int,
{
    match var.node {
        Var::Field { .. } => 0,
        Var::Simple { .. } => 0,
        Var::Subscript { expr, this } => larger(var_nesting(*this), exp_nesting(*expr)),
    }
}

/// How many levels deeper the analysis goes inside the first `upto`
/// expressions of a list.
pub open spec fn exps_nesting(exprs: Vec<ExprWithPos>, upto: int) -> nat
    decreases exprs, upto,
{
    if upto <= 0 || upto > exprs@.len() {
        0
    } else {
        larger(exps_nesting(exprs, upto - 1), exp_nesting(exprs@[upto - 1]))
    }
}

/// How many levels deeper the analysis goes inside the values of the
/// first `upto` fields of a record.
pub open spec fn fields_nesting(fields: Vec<RecordFieldWithPos>, upto: int) -> nat
    decreases fields, upto,
{
    if upto <= 0 || upto > fields@.len() {
        0
    } else {
        larger(fields_nesting(fields, upto - 1), exp_nesting(fields@[upto - 1].node.expr))
    }
}

/// How many levels deeper the analysis goes inside the first `upto`
/// functions of a group: one more than inside their bodies.
pub open spec fn functions_nesting(functions: Vec<FuncDeclarationWithPos>, upto: int) -> nat
    decreases functions, upto,
{
    if upto <= 0 || upto > functions@.len() {
        0
    } else {
        larger(
            functions_nesting(functions, upto - 1),
            exp_nesting(functions@[upto - 1].node.body) + 1,
        )
    }
}

/// How many levels deeper the analysis goes inside a declaration.
pub open spec fn dec_nesting(declaration: DeclarationWithPos) -> nat
    decreases declaration, 0int,
{
    match declaration.node {
        Declaration::Function(functions) => functions_nesting(functions, functions@.len() as int),
        Declaration::Type(_) => 0,
        Declaration::VariableDeclaration { init, .. } => exp_nesting(init) + 1,
    }
}

/// How many levels deeper the analysis goes inside the first `upto`
/// declarations of a list.
pub open spec fn decs_nesting(declarations: Vec<DeclarationWithPos>, upto: int) -> nat
    decreases declarations, upto,
{
    if upto <= 0 || upto > declarations@.len() {
        0
    } else {
        larger(decs_nesting(declarations, upto - 1), dec_nesting(declarations@[upto - 1]))
    }
}

/// How many levels deeper than an expression the analysis goes inside it:
/// one for each function or variable declaration that lies within
/// another.
pub open spec fn exp_nesting(expr: ExprWithPos) -> nat
    decreases expr, 0int,
{
    match expr.node {
        Expr::Array { init, size, .. } => larger(exp_nesting(*size), exp_nesting(*init)),
        Expr::Assign { expr, var } => larger(var_nesting(var), exp_nesting(*expr)),
        Expr::Break => 0,
        Expr::Call { args, .. } => exps_nesting(args, args@.len() as int),
        Expr::If { else_, test, then_ } => {
            let before = larger(exp_nesting(*test), exp_nesting(*then_));
            match else_ {
                Some(other) => larger(before, exp_nesting(*other)),
                None => before,
            }
        },
        Expr::Int { .. } => 0,
        Expr::Let { body, declarations } => larger(
            decs_nesting(declarations, declarations@.len() as int),
            exp_nesting(*body),
        ),
        Expr::Nil => 0,
        Expr::Oper { left, right, .. } => larger(exp_nesting(*left), exp_nesting(*right)),
        Expr::Record { fields, .. } => fields_nesting(fields, fields@.len() as int),
        Expr::Sequence(exprs) => exps_nesting(exprs, exprs@.len() as int),
        Expr::Str { .. } => 0,
        Expr::Variable(var) => var_nesting(var),
        Expr::While { body, test } => larger(exp_nesting(*test), exp_nesting(*body)),
    }
}

/// No expression of a list goes deeper than the list.
pub proof fn lemma_exps_nesting(exprs: Vec<ExprWithPos>, index: int, upto: int)
    requires
        0 <= index < upto <= exprs@.len(),
    ensures
        exp_nesting(exprs@[index]) <= exps_nesting(exprs, upto),
    decreases upto,
{
    if index < upto - 1 {
        lemma_exps_nesting(exprs, index, upto - 1);
    }
}

/// No field of a record goes deeper than the record.
pub proof fn lemma_fields_nesting(fields: Vec<RecordFieldWithPos>, index: int, upto: int)
    requires
        0 <= index < upto <= fields@.len(),
    ensures
        exp_nesting(fields@[index].node.expr) <= fields_nesting(fields, upto),
    decreases upto,
{
    if index < upto - 1 {
        lemma_fields_nesting(fields, index, upto - 1);
    }
}

/// No function of a group goes deeper than the group.
pub proof fn lemma_functions_nesting(functions: Vec<FuncDeclarationWithPos>, index: int, upto: int)
    requires
        0 <= index < upto <= functions@.len(),
    ensures
        exp_nesting(functions@[index].node.body) + 1 <= functions_nesting(functions, upto),
    decreases upto,
{
    if index < upto - 1 {
        lemma_functions_nesting(functions, index, upto - 1);
    }
}

/// No declaration of a list goes deeper than the list.
pub proof fn lemma_decs_nesting(declarations: Vec<DeclarationWithPos>, index: int, upto: int)
    requires
        0 <= index < upto <= declarations@.len(),
    ensures
        dec_nesting(declarations@[index]) <= decs_nesting(declarations, upto),
    decreases upto,
{
    if index < upto - 1 {
        lemma_decs_nesting(declarations, index, upto - 1);
    }
}

/// Whether the table `after` holds what `found` says, and has the scopes
/// of `before` around its innermost one.
pub open spec fn holds(after: EscapeEnv, before: EscapeEnv, found: Found) -> bool {
    &&& found_in(after) == found
    &&& after.scopes().len() == before.scopes().len()
    &&& after.scopes().drop_last() == before.scopes().drop_last()
}

/// Takes note that the variable `symbol` is used at `depth`: if it is bound
/// and was declared at a lesser depth, it escapes.
pub fn note_use(env: &mut EscapeEnv, symbol: Symbol, depth: u32)
    ensures
        final(env).stack == old(env).stack,
        found_in(*final(env)) == used(found_in(*old(env)), symbol, depth as int),
{
    let found = match env.look(symbol) {
        Some(var) => Some(*var),
        None => None,
    };
    match found {
        Some(var) => {
            if depth > var.depth {
                env.replace(symbol, DepthEscape { depth: var.depth, escape: true });
            }
        },
        None => {},
    }
    assert(found_in(*env).bindings =~= used(found_in(*old(env)), symbol, depth as int).bindings);
}

/// Binds the variable `symbol`, declared at `depth`, as one that does not
/// escape.
pub fn declare(env: &mut EscapeEnv, symbol: Symbol, depth: u32)
    requires
        old(env).scopes().len() > 0,
    ensures
        holds(*final(env), *old(env), declared(found_in(*old(env)), symbol, depth as int)),
{
    env.enter(symbol, DepthEscape { depth, escape: false });
    assert(found_in(*env).bindings =~= declared(
        found_in(*old(env)),
        symbol,
        depth as int,
    ).bindings);
    assert(env.scopes().drop_last() =~= old(env).scopes().drop_last());
}

/// The analysis at work: the table it fills.
pub struct EscapeFinder {
    pub env: EscapeEnv,
}

impl EscapeFinder {
    /// An analysis that knows of no variable yet.
    pub fn new() -> (finder: Self)
        ensures
            finder.env.scopes() == seq![Seq::<Symbol>::empty()],
            forall|symbol: Symbol| finder.env.bindings(symbol) == Seq::<DepthEscape>::empty(),
    {
        EscapeFinder { env: Symbols::new() }
    }

    /// Declares the parameters of a function at `depth`.
    pub fn declare_params(&mut self, params: &Vec<FieldWithPos>, depth: u32)
        requires
            old(self).env.scopes().len() > 0,
        ensures
            holds(
                final(self).env,
                old(self).env,
                declared_all(
                    found_in(old(self).env),
                    params@,
                    params@.len() as int,
                    depth as int,
                ),
            ),
    {
        let mut index: usize = 0;
        while index < params.len()
            invariant
                index <= params@.len(),
                old(self).env.scopes().len() > 0,
                holds(
                    self.env,
                    old(self).env,
                    declared_all(found_in(old(self).env), params@, index as int, depth as int),
                ),
            decreases params@.len() - index,
        {
            declare(&mut self.env, params[index].node.name, depth);
            index = index + 1;
        }
    }

    /// Goes through a variable at `depth`.
    pub fn visit_var(&mut self, var: &VarWithPos, depth: u32)
        requires
            old(self).env.scopes().len() > 0,
            depth + var_nesting(*var) <= u32::MAX,
        ensures
            holds(
                final(self).env,
                old(self).env,
                after_var(found_in(old(self).env), *var, depth as int),
            ),
        decreases var,
    {
        match &var.node {
            Var::Field { ident, .. } => {
                note_use(&mut self.env, ident.node, depth);
            },
            Var::Simple { ident } => {
                note_use(&mut self.env, ident.node, depth);
            },
            Var::Subscript { expr, this } => {
                self.visit_var(this, depth);
                self.visit_exp(expr, depth);
            },
        }
    }

    /// Goes through the expressions of a list at `depth`, from left to
    /// right.
    pub fn visit_exps(&mut self, exprs: &Vec<ExprWithPos>, depth: u32)
        requires
            old(self).env.scopes().len() > 0,
            depth + exps_nesting(*exprs, exprs@.len() as int) <= u32::MAX,
        ensures
            holds(
                final(self).env,
                old(self).env,
                after_exps(found_in(old(self).env), *exprs, exprs@.len() as int, depth as int),
            ),
        decreases exprs,
    {
        let mut index: usize = 0;
        while index < exprs.len()
            invariant
                index <= exprs@.len(),
                old(self).env.scopes().len() > 0,
                depth + exps_nesting(*exprs, exprs@.len() as int) <= u32::MAX,
                holds(
                    self.env,
                    old(self).env,
                    after_exps(found_in(old(self).env), *exprs, index as int, depth as int),
                ),
            decreases exprs@.len() - index,
        {
            proof {
                lemma_exps_nesting(*exprs, index as int, exprs@.len() as int);
                vstd::std_specs::vec::axiom_vec_index_decreases(*exprs, index as int);
            }
            self.visit_exp(&exprs[index], depth);
            index = index + 1;
        }
    }

    /// Goes through the values of the fields of a record at `depth`, from
    /// left to right.
    pub fn visit_fields(&mut self, fields: &Vec<RecordFieldWithPos>, depth: u32)
        requires
            old(self).env.scopes().len() > 0,
            depth + fields_nesting(*fields, fields@.len() as int) <= u32::MAX,
        ensures
            holds(
                final(self).env,
                old(self).env,
                after_fields(found_in(old(self).env), *fields, fields@.len() as int, depth as int),
            ),
        decreases fields,
    {
        let mut index: usize = 0;
        while index < fields.len()
            invariant
                index <= fields@.len(),
                old(self).env.scopes().len() > 0,
                depth + fields_nesting(*fields, fields@.len() as int) <= u32::MAX,
                holds(
                    self.env,
                    old(self).env,
                    after_fields(found_in(old(self).env), *fields, index as int, depth as int),
                ),
            decreases fields@.len() - index,
        {
            proof {
                lemma_fields_nesting(*fields, index as int, fields@.len() as int);
                vstd::std_specs::vec::axiom_vec_index_decreases(*fields, index as int);
            }
            self.visit_exp(&fields[index].node.expr, depth);
            index = index + 1;
        }
    }

    /// Goes through the functions of a group declared at `depth`.
    pub fn visit_functions(&mut self, functions: &Vec<FuncDeclarationWithPos>, depth: u32)
        requires
            old(self).env.scopes().len() > 0,
            depth + functions_nesting(*functions, functions@.len() as int) <= u32::MAX,
        ensures
            holds(
                final(self).env,
                old(self).env,
                after_functions(
                    found_in(old(self).env),
                    *functions,
                    functions@.len() as int,
                    depth as int,
                ),
            ),
        decreases functions,
    {
        let mut index: usize = 0;
        while index < functions.len()
            invariant
                index <= functions@.len(),
                old(self).env.scopes().len() > 0,
                depth + functions_nesting(*functions, functions@.len() as int) <= u32::MAX,
                holds(
                    self.env,
                    old(self).env,
                    after_functions(found_in(old(self).env), *functions, index as int, depth as int),
                ),
            decreases functions@.len() - index,
        {
            proof {
                lemma_functions_nesting(*functions, index as int, functions@.len() as int);
                vstd::std_specs::vec::axiom_vec_index_decreases(*functions, index as int);
            }
            let function = &functions[index].node;
            self.declare_params(&function.params, depth);
            self.visit_exp(&function.body, depth + 1);
            index = index + 1;
        }
    }

    /// Goes through a declaration at `depth`.
    pub fn visit_dec(&mut self, declaration: &DeclarationWithPos, depth: u32)
        requires
            old(self).env.scopes().len() > 0,
            depth + dec_nesting(*declaration) <= u32::MAX,
        ensures
            holds(
                final(self).env,
                old(self).env,
                after_dec(found_in(old(self).env), *declaration, depth as int),
            ),
        decreases declaration,
    {
        match &declaration.node {
            Declaration::Function(functions) => {
                self.visit_functions(functions, depth);
            },
            Declaration::Type(_) => {},
            Declaration::VariableDeclaration { init, name, .. } => {
                self.visit_exp(init, depth + 1);
                declare(&mut self.env, *name, depth);
            },
        }
    }

    /// Goes through the declarations of a list at `depth`, from first to
    /// last.
    pub fn visit_decs(&mut self, declarations: &Vec<DeclarationWithPos>, depth: u32)
        requires
            old(self).env.scopes().len() > 0,
            depth + decs_nesting(*declarations, declarations@.len() as int) <= u32::MAX,
        ensures
            holds(
                final(self).env,
                old(self).env,
                after_decs(
                    found_in(old(self).env),
                    *declarations,
                    declarations@.len() as int,
                    depth as int,
                ),
            ),
        decreases declarations,
    {
        let mut index: usize = 0;
        while index < declarations.len()
            invariant
                index <= declarations@.len(),
                old(self).env.scopes().len() > 0,
                depth + decs_nesting(*declarations, declarations@.len() as int) <= u32::MAX,
                holds(
                    self.env,
                    old(self).env,
                    after_decs(found_in(old(self).env), *declarations, index as int, depth as int),
                ),
            decreases declarations@.len() - index,
        {
            proof {
                lemma_decs_nesting(*declarations, index as int, declarations@.len() as int);
                vstd::std_specs::vec::axiom_vec_index_decreases(*declarations, index as int);
            }
            self.visit_dec(&declarations[index], depth);
            index = index + 1;
        }
    }

    /// Goes through an expression at `depth`.
    pub fn visit_exp(&mut self, expr: &ExprWithPos, depth: u32)
        requires
            old(self).env.scopes().len() > 0,
            depth + exp_nesting(*expr) <= u32::MAX,
        ensures
            holds(
                final(self).env,
                old(self).env,
                after_exp(found_in(old(self).env), *expr, depth as int),
            ),
        decreases expr,
    {
        match &expr.node {
            Expr::Array { init, size, .. } => {
                self.visit_exp(size, depth);
                self.visit_exp(init, depth);
            },
            Expr::Assign { expr, var } => {
                self.visit_var(var, depth);
                self.visit_exp(expr, depth);
            },
            Expr::Break => {},
            Expr::Call { args, .. } => {
                self.visit_exps(args, depth);
            },
            Expr::If { else_, test, then_ } => {
                self.visit_exp(test, depth);
                self.visit_exp(then_, depth);
                match else_ {
                    Some(other) => {
                        self.visit_exp(other, depth);
                    },
                    None => {},
                }
            },
            Expr::Int { .. } => {},
            Expr::Let { body, declarations } => {
                self.visit_decs(declarations, depth);
                self.visit_exp(body, depth);
            },
            Expr::Nil => {},
            Expr::Oper { left, right, .. } => {
                self.visit_exp(left, depth);
                self.visit_exp(right, depth);
            },
            Expr::Record { fields, .. } => {
                self.visit_fields(fields, depth);
            },
            Expr::Sequence(exprs) => {
                self.visit_exps(exprs, depth);
            },
            Expr::Str { .. } => {},
            Expr::Variable(var) => {
                self.visit_var(var, depth);
            },
            Expr::While { body, test } => {
                self.visit_exp(test, depth);
                self.visit_exp(body, depth);
            },
        }
    }
}

/// What the analysis finds in a program: for every variable, the depth at
/// which it is declared and whether it escapes.
pub open spec fn escapes_of(exp: ExprWithPos) -> Found {
    after_exp(
        Found {
            bindings: Map::new(|symbol: Symbol| true, |symbol: Symbol| Seq::<DepthEscape>::empty()),
            entered: Seq::empty(),
        },
        exp,
        0,
    )
}

/// Finds the variables of a program that escape.
pub fn find_escapes(exp: &ExprWithPos) -> (env: EscapeEnv)
    requires
        exp_nesting(*exp) <= u32::MAX,
    ensures
        found_in(env) == escapes_of(*exp),
        env.scopes().len() == 1,
{
    let mut finder = EscapeFinder::new();
    assert(found_in(finder.env).bindings =~= Map::new(
        |symbol: Symbol| true,
        |symbol: Symbol| Seq::<DepthEscape>::empty(),
    ));
    finder.visit_exp(exp, 0);
    finder.env
}

} // verus!
