use tiger::ast::{dummy_var_expr, Expr, Var};
use tiger::env::{external_functions, Entry, Env};
use tiger::error::Error;
use tiger::escape::{note_use, DepthEscape, EscapeEnv};
use tiger::frame::x86_64::{Access, X86_64};
use tiger::frame::Frame;
use tiger::position::Pos;
use tiger::symbol::{same_text, Strings, Symbols};
use tiger::temp::{Gensym, Label, Temp};
use tiger::translate::{alloc_local, outermost, Level};
use tiger::types::{Type, Unique};

#[test]
fn a_name_has_one_symbol() {
    let mut strings = Strings::new();
    assert_eq!(strings.symbol("a"), 0);
    assert_eq!(strings.symbol("b"), 1);
    assert_eq!(strings.symbol("a"), 0);
    assert_eq!(strings.symbol(""), 2);
    assert_eq!(strings.get(1), Some("b".to_string()));
    assert_eq!(strings.get(3), None);
    assert_eq!(strings.get(-1), None);
    assert!(same_text("abc", "abc"));
    assert!(!same_text("abc", "abd"));
}

#[test]
fn a_binding_hides_the_earlier_ones_until_its_scope_ends() {
    let mut strings = Strings::new();
    let mut symbols: Symbols<u32> = Symbols::new();
    let x = symbols.symbol(&mut strings, "x");
    let y = symbols.symbol(&mut strings, "y");
    assert_eq!(symbols.name(&strings, y), "y");
    assert_eq!(symbols.look(x), None);
    symbols.enter(x, 1);
    symbols.begin_scope();
    symbols.enter(x, 2);
    symbols.enter(y, 3);
    symbols.enter(x, 4);
    assert_eq!(symbols.look(x), Some(&4));
    assert_eq!(symbols.look(y), Some(&3));
    symbols.replace(x, 5);
    assert_eq!(symbols.look(x), Some(&5));
    symbols.end_scope();
    assert_eq!(symbols.look(x), Some(&1));
    assert_eq!(symbols.look(y), None);
    symbols.end_scope();
    assert_eq!(symbols.look(x), None);
}

#[test]
fn a_variable_used_in_a_nested_function_escapes() {
    let mut env: EscapeEnv = Symbols::new();
    env.enter(0, DepthEscape { depth: 1, escape: false });
    note_use(&mut env, 0, 1);
    assert_eq!(env.look(0), Some(&DepthEscape { depth: 1, escape: false }));
    note_use(&mut env, 0, 0);
    assert_eq!(env.look(0), Some(&DepthEscape { depth: 1, escape: false }));
    note_use(&mut env, 0, 2);
    assert_eq!(env.look(0), Some(&DepthEscape { depth: 1, escape: true }));
    note_use(&mut env, 0, 1);
    assert_eq!(env.look(0), Some(&DepthEscape { depth: 1, escape: true }));
    note_use(&mut env, 7, 3);
    assert_eq!(env.look(7), None);
}

#[test]
fn types_show_as_the_user_wrote_them() {
    let mut strings = Strings::new();
    let list = strings.symbol("list");
    let mut gensym = Gensym::new();
    let first = Unique::new(&mut gensym);
    let second = Unique::new(&mut gensym);
    assert_eq!(first, Unique(0));
    assert_eq!(second, Unique(1));
    assert_eq!(gensym.uniques, 2);
    assert_eq!(Type::Int.show(&strings), "int");
    assert_eq!(Type::String.show(&strings), "string");
    assert_eq!(Type::Nil.show(&strings), "nil");
    assert_eq!(Type::Unit.show(&strings), "()");
    assert_eq!(Type::Error.show(&strings), "type error");
    assert_eq!(Type::Array(Box::new(Type::Int), first).show(&strings), "[int]");
    assert_eq!(
        Type::Array(Box::new(Type::Array(Box::new(Type::String), first)), second).show(&strings),
        "[[string]]"
    );
    assert_eq!(Type::Record(list, vec![(list, Type::Int)], second).show(&strings), "struct list");
    let name = tiger::position::WithPos::dummy(list);
    assert_eq!(Type::Name(name.clone(), None).show(&strings), "unresolved type");
    assert_eq!(Type::Name(name, Some(Box::new(Type::Int))).show(&strings), "int");
}

#[test]
fn the_runtime_library_has_fourteen_functions() {
    let functions = external_functions();
    assert_eq!(functions.len(), 14);
    let names: Vec<&str> = functions.iter().map(|function| function.name).collect();
    assert_eq!(
        names,
        vec![
            "print", "printi", "flush", "getchar", "ord", "chr", "size", "substring", "concat",
            "not", "exit", "stringEqual", "malloc", "initArray",
        ]
    );
    assert_eq!(functions[7].parameters, vec![Type::String, Type::Int, Type::Int]);
    assert_eq!(functions[7].result, Type::String);
    assert_eq!(functions[2].parameters, vec![]);
    assert_eq!(functions[13].result, Type::Int);
}

#[test]
fn the_first_environment_knows_the_basic_types_and_the_runtime_library() {
    let mut strings = Strings::new();
    let mut gensym = Gensym::new();
    let mut env: Env<X86_64> = Env::new(&mut strings, Symbols::new(), &mut gensym);
    assert_eq!(gensym.labels, 14);
    let int = env.type_symbol(&mut strings, "int");
    let string = env.type_symbol(&mut strings, "string");
    assert_eq!(env.look_type(int), Some(&Type::Int));
    assert_eq!(env.look_type(string), Some(&Type::String));
    assert_eq!(env.name_of_type(&strings, string), "string");
    let print = strings.symbol("print");
    assert_eq!(env.var_name(&strings, print), "print");
    match env.look_var(print) {
        Some(Entry::Fun { external, label, parameters, result, level }) => {
            assert!(*external);
            assert_eq!(label, &Label::with_name("print"));
            assert_eq!(parameters, &vec![Type::String]);
            assert_eq!(result, &Type::Unit);
            assert!(level.parent.is_none());
        }
        _ => panic!("print is not bound to a function"),
    }
    let count = strings.strings.len();
    for function in external_functions() {
        let symbol = strings.symbol(function.name);
        assert!(env.look_var(symbol).is_some());
    }
    assert_eq!(strings.strings.len(), count);
    let missing = strings.symbol("missing");
    assert!(env.look_var(missing).is_none());
    assert!(env.look_type(missing).is_none());
}

#[test]
fn environments_open_and_close_scopes_together() {
    let mut strings = Strings::new();
    let mut gensym = Gensym::new();
    let mut escapes: EscapeEnv = Symbols::new();
    let x = strings.symbol("x");
    escapes.enter(x, DepthEscape { depth: 0, escape: true });
    let mut env: Env<X86_64> = Env::new(&mut strings, escapes, &mut gensym);
    assert!(env.look_escape(x));
    env.begin_scope();
    env.enter_type(x, Type::Nil);
    env.enter_var(
        x,
        Entry::Var { access: (Label::with_name("f"), Access::InFrame(-8)), typ: Type::Int },
    );
    assert_eq!(env.look_type(x), Some(&Type::Nil));
    env.replace_type(x, Type::Unit);
    assert_eq!(env.look_type(x), Some(&Type::Unit));
    assert!(matches!(env.look_var(x), Some(Entry::Var { typ: Type::Int, .. })));
    env.enter_var(x, Entry::Error);
    assert!(matches!(env.look_var(x), Some(Entry::Error)));
    env.end_scope();
    assert_eq!(env.look_type(x), None);
    assert!(env.look_var(x).is_none());
}

#[test]
fn levels_nest() {
    let mut gensym = Gensym::new();
    let top: Level<X86_64> = outermost(&mut gensym);
    assert_eq!(top.current.name(), Label::Num(1));
    assert!(top.parent.is_none());
    assert!(top.formals().is_empty());
    let mut inner = Level::new(top, Label::with_name("f"), vec![false, true], &mut gensym);
    assert_eq!(
        inner.formals(),
        vec![
            (Label::with_name("f"), Access::InReg(Temp { num: 17 })),
            (Label::with_name("f"), Access::InFrame(-8)),
            (Label::with_name("f"), Access::InFrame(-16)),
        ]
    );
    assert!(inner.parent.is_some());
    assert_eq!(
        alloc_local(&mut inner, true, &mut gensym),
        (Label::with_name("f"), Access::InFrame(-24))
    );
    assert_eq!(
        alloc_local(&mut inner, false, &mut gensym),
        (Label::with_name("f"), Access::InReg(Temp { num: 18 }))
    );
}

#[test]
fn a_dummy_variable_reads_its_symbol() {
    let expr = dummy_var_expr(7);
    assert_eq!(expr.pos, Pos::dummy());
    match expr.node {
        Expr::Variable(var) => match var.node {
            Var::Simple { ident } => {
                assert_eq!(ident.node, 7);
                assert_eq!(ident.pos, Pos::dummy());
            }
            _ => panic!("not a simple variable"),
        },
        _ => panic!("not a variable"),
    }
}

#[test]
fn every_error_can_be_made() {
    let pos = Pos::new(1, 2, 3, 0, 4);
    let errors = vec![
        Error::Eof,
        Error::InvalidEscape { escape: "q".to_string(), pos },
        Error::Msg("no such file".to_string()),
        Error::Unclosed { pos, token: "string" },
        Error::UnknownToken { pos, start: '$' },
    ];
    assert!(matches!(errors[0], Error::Eof));
    assert!(matches!(&errors[1], Error::InvalidEscape { escape, .. } if escape == "q"));
    assert!(matches!(&errors[2], Error::Msg(text) if text == "no such file"));
    assert!(matches!(errors[3], Error::Unclosed { token: "string", .. }));
    assert!(matches!(errors[4], Error::UnknownToken { start: '$', .. }));
}
