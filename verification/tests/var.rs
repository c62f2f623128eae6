use mincaml::ctx::Ctx;
use mincaml::utils::{base62_encode, comma_sep, show_arg_list};
use mincaml::var::{CompilerPhase, Uniq, Var};

fn tag(n: u32) -> Uniq {
    Uniq::new(n).unwrap()
}

#[test]
fn tags_are_not_zero() {
    assert!(Uniq::new(0).is_none());
    assert_eq!(Uniq::new(7).unwrap().get(), 7);
    assert_eq!(tag(3), tag(3));
    assert_ne!(tag(3), tag(4));
}

#[test]
fn variables_print_by_kind() {
    assert_eq!(Var::new_user("x", tag(12)).to_string(), "x_12");
    assert_eq!(Var::new_user("total", tag(4294967295)).to_string(), "total_4294967295");
    assert_eq!(Var::new_generated(CompilerPhase::KNormal, tag(31)).to_string(), "#kn_0x1F");
    assert_eq!(Var::new_generated(CompilerPhase::Parser, tag(1)).to_string(), "#p_0x1");
    assert_eq!(Var::new_generated(CompilerPhase::TyChecker, tag(16)).to_string(), "#tc_0x10");
    assert_eq!(Var::new_generated(CompilerPhase::ANormal, tag(255)).to_string(), "#an_0xFF");
    assert_eq!(
        Var::new_generated(CompilerPhase::ClosureConvert, tag(2748)).to_string(),
        "#cc_0xABC"
    );
    assert_eq!(Var::new_builtin("print_int", tag(1)).to_string(), "#builtin[print_int]");
    assert_eq!(Var::new_external("sin", tag(2)).to_string(), "#ext[sin]");
}

#[test]
fn phases_have_short_names() {
    assert_eq!(CompilerPhase::Parser.display_str(), "p");
    assert_eq!(CompilerPhase::TyChecker.display_str(), "tc");
    assert_eq!(CompilerPhase::KNormal.display_str(), "kn");
    assert_eq!(CompilerPhase::ANormal.display_str(), "an");
    assert_eq!(CompilerPhase::ClosureConvert.display_str(), "cc");
}

#[test]
fn variables_are_equal_by_tag() {
    assert_eq!(Var::new_user("x", tag(1)), Var::new_user("y", tag(1)));
    assert_eq!(Var::new_user("x", tag(1)), Var::new_builtin("x", tag(1)));
    assert_ne!(Var::new_user("x", tag(1)), Var::new_user("x", tag(2)));
    assert_eq!(Var::new_user("x", tag(9)).get_uniq(), tag(9));
    assert_eq!(Var::new_generated(CompilerPhase::KNormal, tag(5)).get_uniq(), tag(5));
}

#[test]
fn variables_have_names() {
    assert_eq!(Var::new_user("x", tag(1)).name(), "x");
    assert_eq!(Var::new_builtin("print_int", tag(1)).name(), "print_int");
    assert_eq!(Var::new_external("sin", tag(1)).name(), "sin");
}

#[test]
fn table_hands_out_tags_in_order() {
    let mut ctx = Ctx::new();
    assert_eq!(ctx.len(), 0);
    assert_eq!(ctx.fresh_user("x"), Some(0));
    assert_eq!(ctx.fresh_generated(CompilerPhase::KNormal), Some(1));
    assert_eq!(ctx.fresh_builtin("print_int"), Some(2));
    assert_eq!(ctx.fresh_external("sin"), Some(3));
    assert_eq!(ctx.len(), 4);
    assert_eq!(ctx.get_var(0).get_uniq(), tag(1));
    assert_eq!(ctx.get_var(3).get_uniq(), tag(4));
    assert_eq!(ctx.get_var(0).to_string(), "x_1");
    assert_eq!(ctx.get_var(1).to_string(), "#kn_0x2");
}

#[test]
fn argument_lists() {
    let mut ctx = Ctx::new();
    let x = ctx.fresh_user("x").unwrap();
    let t = ctx.fresh_generated(CompilerPhase::KNormal).unwrap();
    let p = ctx.fresh_builtin("print_int").unwrap();
    assert_eq!(show_arg_list(&ctx, &[]), "[]");
    assert_eq!(show_arg_list(&ctx, &[x]), "[x_1]");
    assert_eq!(show_arg_list(&ctx, &[x, t, p, x]), "[x_1, #kn_0x2, #builtin[print_int], x_1]");
}

#[test]
fn commas_every_three_digits() {
    assert_eq!(comma_sep(""), "");
    assert_eq!(comma_sep("1"), "1");
    assert_eq!(comma_sep("12"), "12");
    assert_eq!(comma_sep("123"), "123");
    assert_eq!(comma_sep("1234"), "1,234");
    assert_eq!(comma_sep("12345"), "12,345");
    assert_eq!(comma_sep("123456"), "123,456");
    assert_eq!(comma_sep("1234567"), "1,234,567");
    assert_eq!(comma_sep("1234567890"), "1,234,567,890");
}

#[test]
fn base62_stops_at_a_zero_digit() {
    let enc = |n: u32| {
        let mut s = String::from(">");
        base62_encode(tag(n), &mut s);
        s
    };
    assert_eq!(enc(1), ">1");
    assert_eq!(enc(10), ">a");
    assert_eq!(enc(61), ">Z");
    assert_eq!(enc(62), ">");
    assert_eq!(enc(63), ">11");
    assert_eq!(enc(62 * 62 + 5), ">5");
    assert_eq!(enc(3 * 62 * 62 + 2 * 62 + 1), ">123");
}
