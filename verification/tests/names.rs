use tiger::error::num_text_size;
use tiger::frame::x86_64::X86_64;
use tiger::nasm::to_nasm;
use tiger::position::{Pos, WithPos};
use tiger::temp::{Gensym, Label, Temp};
use tiger::text::{i64_to_string, u128_to_string, u64_to_string};
use tiger::token::Tok;

#[test]
fn fresh_temps_start_above_machine_registers() {
    let mut gensym = Gensym::new();
    let first = Temp::new(&mut gensym);
    let second = Temp::new(&mut gensym);
    assert_eq!(first.num, 17);
    assert_eq!(second.num, 18);
    assert_eq!(gensym.temps, 18);
    assert_eq!(gensym.labels, 0);
}

#[test]
fn labels_render_as_in_assembly() {
    let mut gensym = Gensym::new();
    let label = Label::new(&mut gensym);
    assert_eq!(label, Label::Num(1));
    assert_eq!(label.to_string(), "l1");
    assert_eq!(Label::new(&mut gensym).to_string(), "l2");
    assert_eq!(Label::with_name("main").to_string(), "main");
    assert_eq!(Label::with_name("main").to_name(), "main");
}

#[test]
fn labels_compare_by_what_they_name() {
    assert!(Label::with_name("a").same(&Label::with_name("a")));
    assert!(!Label::with_name("a").same(&Label::with_name("b")));
    assert!(!Label::with_name("l1").same(&Label::Num(1)));
    assert!(Label::Num(7).same(&Label::Num(7).copy()));
}

#[test]
fn temps_render_by_register_name_or_number() {
    assert_eq!(Temp { num: 1 }.to_string::<X86_64>(), "rbp");
    assert_eq!(Temp { num: 3 }.to_string::<X86_64>(), "rax");
    assert_eq!(Temp { num: 16 }.to_string::<X86_64>(), "r15");
    assert_eq!(Temp { num: 17 }.to_string::<X86_64>(), "t17");
    assert_eq!(Temp { num: 0 }.to_string::<X86_64>(), "t0");
    assert_eq!(Temp { num: 4294967295 }.to_plain_string(), "t4294967295");
}

#[test]
fn integers_render_in_decimal() {
    assert_eq!(u64_to_string(0), "0");
    assert_eq!(u64_to_string(9), "9");
    assert_eq!(u64_to_string(10), "10");
    assert_eq!(u64_to_string(12345), "12345");
    assert_eq!(u64_to_string(u64::MAX), "18446744073709551615");
    assert_eq!(u128_to_string(340282366920938463463374607431768211455), "340282366920938463463374607431768211455");
    assert_eq!(i64_to_string(0), "0");
    assert_eq!(i64_to_string(-42), "-42");
    assert_eq!(i64_to_string(i64::MAX), "9223372036854775807");
    assert_eq!(i64_to_string(i64::MIN), "-9223372036854775808");
}

#[test]
fn line_numbers_take_as_many_columns_as_they_have_digits() {
    assert_eq!(num_text_size(0), 1);
    assert_eq!(num_text_size(7), 1);
    assert_eq!(num_text_size(9), 1);
    assert_eq!(num_text_size(10), 2);
    assert_eq!(num_text_size(99), 2);
    assert_eq!(num_text_size(100), 3);
    assert_eq!(num_text_size(123456), 6);
    assert_eq!(num_text_size(i64::MAX), 19);
    assert_eq!(num_text_size(-5), 1);
}

#[test]
fn string_literals_escape_line_feeds_and_tabs() {
    assert_eq!(to_nasm(""), "''");
    assert_eq!(to_nasm("hello"), "'hello'");
    assert_eq!(to_nasm("hello\n"), "'hello', 10, ''");
    assert_eq!(to_nasm("a\tb"), "'a', 9, 'b'");
    assert_eq!(to_nasm("\n\n"), "'', 10, '', 10, ''");
}

#[test]
fn positions_grow_to_the_end_of_a_later_one() {
    let start = Pos::new(3, 5, 40, 0, 2);
    let end = Pos::new(3, 12, 47, 0, 4);
    let grown = start.grow(end);
    assert_eq!(grown, Pos::new(3, 5, 40, 0, 11));
    assert_eq!(start.grow(start), start);
    assert_eq!(start.to_string(), "3:5:");
}

#[test]
fn dummy_positions_are_at_the_limits() {
    let dummy = Pos::dummy();
    assert_eq!(dummy.line, u32::MAX);
    assert_eq!(dummy.column, u32::MAX);
    assert_eq!(dummy.byte, u64::MAX);
    assert_eq!(dummy.file, 0);
    assert_eq!(dummy.length, 0);
    let node = WithPos::dummy(7);
    assert_eq!(node.node, 7);
    assert_eq!(node.pos, dummy);
    let placed = WithPos::new("x", Pos::new(1, 2, 3, 4, 5));
    assert_eq!(placed.node, "x");
    assert_eq!(placed.pos.byte, 3);
}

#[test]
fn tokens_render_as_in_the_source() {
    assert_eq!(Tok::Ampersand.to_string(), "&");
    assert_eq!(Tok::ColonEqual.to_string(), ":=");
    assert_eq!(Tok::NotEqual.to_string(), "<>");
    assert_eq!(Tok::Function.to_string(), "function");
    assert_eq!(Tok::While.to_string(), "while");
    assert_eq!(Tok::Ident("count".to_string()).to_string(), "count");
    assert_eq!(Tok::Int(-12).to_string(), "-12");
    assert_eq!(Tok::Int(0).to_string(), "0");
}

#[test]
fn string_tokens_render_quoted_and_escaped() {
    assert_eq!(Tok::Str("hi".to_string()).to_string(), "\"hi\"");
    assert_eq!(Tok::Str("a\nb".to_string()).to_string(), "\"a\\nb\"");
    assert_eq!(Tok::Str("say \"x\"".to_string()).to_string(), "\"say \\\"x\\\"\"");
}
