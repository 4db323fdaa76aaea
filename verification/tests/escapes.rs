use tiger::ast::{
    Declaration, Expr, ExprWithPos, Field, FuncDeclaration, Operator, RecordField, Var,
};
use tiger::escape::{find_escapes, DepthEscape, EscapeFinder};
use tiger::position::WithPos;

const X: i64 = 1;
const Y: i64 = 2;
const F: i64 = 3;
const PRINTI: i64 = 4;
const N: i64 = 5;
const INT: i64 = 6;

fn number(value: i64) -> ExprWithPos {
    WithPos::dummy(Expr::Int { value })
}

fn read(symbol: i64) -> ExprWithPos {
    WithPos::dummy(Expr::Variable(WithPos::dummy(Var::Simple { ident: WithPos::dummy(symbol) })))
}

fn call(function: i64, args: Vec<ExprWithPos>) -> ExprWithPos {
    WithPos::dummy(Expr::Call { args, function })
}

fn variable(name: i64, init: ExprWithPos) -> WithPos<Declaration> {
    WithPos::dummy(Declaration::VariableDeclaration { escape: false, init, name, typ: None })
}

fn function(name: i64, params: Vec<i64>, body: ExprWithPos) -> WithPos<Declaration> {
    let params = params
        .into_iter()
        .map(|name| WithPos::dummy(Field { escape: false, name, typ: WithPos::dummy(INT) }))
        .collect();
    WithPos::dummy(Declaration::Function(vec![WithPos::dummy(FuncDeclaration {
        body,
        name,
        params,
        result: None,
    })]))
}

fn let_in(declarations: Vec<WithPos<Declaration>>, body: ExprWithPos) -> ExprWithPos {
    WithPos::dummy(Expr::Let { body: Box::new(body), declarations })
}

fn plus(left: ExprWithPos, right: ExprWithPos) -> ExprWithPos {
    WithPos::dummy(Expr::Oper {
        left: Box::new(left),
        oper: WithPos::dummy(Operator::Plus),
        right: Box::new(right),
    })
}

#[test]
fn a_variable_used_where_it_is_declared_does_not_escape() {
    // let var x := 1 in printi(x + 2) end
    let program = let_in(vec![variable(X, number(1))], call(PRINTI, vec![plus(read(X), number(2))]));
    let env = find_escapes(&program);
    assert_eq!(env.look(X), Some(&DepthEscape { depth: 0, escape: false }));
    assert_eq!(env.look(Y), None);
}

#[test]
fn a_variable_read_by_a_nested_function_escapes() {
    // let var x := 10 function f() = printi(x) in f() end
    let program = let_in(
        vec![variable(X, number(10)), function(F, vec![], call(PRINTI, vec![read(X)]))],
        call(F, vec![]),
    );
    let env = find_escapes(&program);
    assert_eq!(env.look(X), Some(&DepthEscape { depth: 0, escape: true }));
}

#[test]
fn a_parameter_read_by_its_function_escapes() {
    // let function f(n: int) = printi(n) in f(1) end
    let program = let_in(
        vec![function(F, vec![N], call(PRINTI, vec![read(N)]))],
        call(F, vec![number(1)]),
    );
    let env = find_escapes(&program);
    assert_eq!(env.look(N), Some(&DepthEscape { depth: 0, escape: true }));
}

#[test]
fn a_parameter_that_is_not_read_does_not_escape() {
    let program = let_in(vec![function(F, vec![N], number(0))], call(F, vec![number(1)]));
    let env = find_escapes(&program);
    assert_eq!(env.look(N), Some(&DepthEscape { depth: 0, escape: false }));
}

#[test]
fn a_variable_declared_after_its_use_is_not_touched_by_it() {
    // The value of y reads x one level deeper, before x is declared.
    let program = let_in(vec![variable(Y, read(X)), variable(X, number(1))], read(Y));
    let env = find_escapes(&program);
    assert_eq!(env.look(X), Some(&DepthEscape { depth: 0, escape: false }));
    assert_eq!(env.look(Y), Some(&DepthEscape { depth: 0, escape: false }));
}

#[test]
fn the_value_of_a_variable_is_one_level_deeper() {
    // let var x := 1 var y := x in y end
    let program = let_in(vec![variable(X, number(1)), variable(Y, read(X))], read(Y));
    let env = find_escapes(&program);
    assert_eq!(env.look(X), Some(&DepthEscape { depth: 0, escape: true }));
    assert_eq!(env.look(Y), Some(&DepthEscape { depth: 0, escape: false }));
}

#[test]
fn the_latest_binding_of_a_name_is_the_one_that_escapes() {
    // let var x := 1 in let var x := 2 function f() = printi(x) in f() end end
    let inner = let_in(
        vec![variable(X, number(2)), function(F, vec![], call(PRINTI, vec![read(X)]))],
        call(F, vec![]),
    );
    let program = let_in(vec![variable(X, number(1))], inner);
    let mut env = find_escapes(&program);
    assert_eq!(env.look(X), Some(&DepthEscape { depth: 0, escape: true }));
    env.end_scope();
    assert_eq!(env.look(X), None);
}

#[test]
fn every_kind_of_expression_is_gone_through() {
    let subscript = WithPos::dummy(Var::Subscript {
        expr: Box::new(read(X)),
        this: Box::new(WithPos::dummy(Var::Field {
            ident: WithPos::dummy(Y),
            this: Box::new(WithPos::dummy(Var::Simple { ident: WithPos::dummy(N) })),
        })),
    });
    let body = WithPos::dummy(Expr::Sequence(vec![
        WithPos::dummy(Expr::Assign { expr: Box::new(read(X)), var: subscript }),
        WithPos::dummy(Expr::If {
            else_: Some(Box::new(WithPos::dummy(Expr::Nil))),
            test: Box::new(read(X)),
            then_: Box::new(WithPos::dummy(Expr::Break)),
        }),
        WithPos::dummy(Expr::While {
            body: Box::new(WithPos::dummy(Expr::Str { value: "s".to_string() })),
            test: Box::new(read(Y)),
        }),
        WithPos::dummy(Expr::Array {
            init: Box::new(read(X)),
            size: Box::new(number(3)),
            typ: WithPos::dummy(INT),
        }),
        WithPos::dummy(Expr::Record {
            fields: vec![WithPos::dummy(RecordField { expr: read(Y), ident: N })],
            typ: WithPos::dummy(INT),
        }),
    ]));
    let program = let_in(
        vec![variable(X, number(1)), variable(Y, number(2)), function(F, vec![], body)],
        number(0),
    );
    let env = find_escapes(&program);
    assert_eq!(env.look(X), Some(&DepthEscape { depth: 0, escape: true }));
    assert_eq!(env.look(Y), Some(&DepthEscape { depth: 0, escape: true }));
    assert_eq!(env.look(N), None);
}

#[test]
fn the_analysis_can_be_driven_by_hand() {
    let mut finder = EscapeFinder::new();
    finder.visit_dec(&variable(X, number(1)), 3);
    finder.visit_exp(&read(X), 3);
    assert_eq!(finder.env.look(X), Some(&DepthEscape { depth: 3, escape: false }));
    finder.visit_exp(&read(X), 4);
    assert_eq!(finder.env.look(X), Some(&DepthEscape { depth: 3, escape: true }));
}
