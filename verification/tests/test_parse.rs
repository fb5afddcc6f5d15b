use ucc::command::InterpItem;
use ucc::store::{Context, FnDef};
use ucc::term::{Expr, Intrinsic};

#[test]
fn test_parse_interp_items() {
    let ctx = &mut Context::default();
    let foo_sym = ctx.intern("foo").unwrap();
    let bar_sym = ctx.intern("bar").unwrap();
    let cases = [
        (
            "swap",
            vec![InterpItem::Expr(Expr::Intrinsic(Intrinsic::Swap))],
        ),
        (
            "{fn foo = }",
            vec![InterpItem::FnDef(FnDef(foo_sym, Expr::default()))],
        ),
        (
            "swap{fn foo = }",
            vec![
                InterpItem::Expr(Expr::Intrinsic(Intrinsic::Swap)),
                InterpItem::FnDef(FnDef(foo_sym, Expr::default())),
            ],
        ),
        (
            "{fn foo = }{fn bar = }",
            vec![
                InterpItem::FnDef(FnDef(foo_sym, Expr::default())),
                InterpItem::FnDef(FnDef(bar_sym, Expr::default())),
            ],
        ),
        (
            "{fn foo = }\n{fn bar = }",
            vec![
                InterpItem::FnDef(FnDef(foo_sym, Expr::default())),
                InterpItem::FnDef(FnDef(bar_sym, Expr::default())),
            ],
        ),
        (
            "{fn foo = }swap{fn bar = }drop",
            vec![
                InterpItem::FnDef(FnDef(foo_sym, Expr::default())),
                InterpItem::Expr(Expr::Intrinsic(Intrinsic::Swap)),
                InterpItem::FnDef(FnDef(bar_sym, Expr::default())),
                InterpItem::Expr(Expr::Intrinsic(Intrinsic::Drop)),
            ],
        ),
    ];
    for (src, expected) in cases {
        let items = ctx.parse_items(src).unwrap();
        assert_eq!(items, expected, "Failed on {}", src);
    }
}

#[test]
fn test_parse_fn_def() {
    let ctx = &mut Context::default();
    let cases = &[("{fn foo = }", "foo", "")];
    for (fn_def_src, sym_src, e_src) in cases {
        let fn_def = ctx.parse_fn_def(fn_def_src).unwrap();
        let sym = ctx.intern(sym_src).unwrap();
        let e = ctx.parse_expr(e_src).unwrap();
        assert_eq!(fn_def, FnDef(sym, e), "{}", fn_def_src);
    }
}

#[test]
fn test_parse_expr_empty() {
    let ctx = &mut Context::default();
    let input = "";
    let e = ctx.parse_expr(input).unwrap();
    assert_eq!(e, Expr::default());
}

#[test]
fn test_parse_expr_intrinsic() {
    let cases = [
        ("swap", Expr::Intrinsic(Intrinsic::Swap)),
        ("clone", Expr::Intrinsic(Intrinsic::Clone)),
        ("drop", Expr::Intrinsic(Intrinsic::Drop)),
        ("quote", Expr::Intrinsic(Intrinsic::Quote)),
        ("compose", Expr::Intrinsic(Intrinsic::Compose)),
        ("apply", Expr::Intrinsic(Intrinsic::Apply)),
    ];
    for (e_src, e_expected) in cases {
        let ctx = &mut Context::default();
        let e = ctx.parse_expr(e_src).unwrap();
        assert_eq!(e, e_expected);
    }
}

#[test]
fn test_parse_expr_call() {
    let ctx = &mut Context::default();
    let input = "foo";
    let e = ctx.parse_expr(input).unwrap();
    assert_eq!(e, Expr::Call(ctx.intern("foo").unwrap()));
}

#[test]
fn test_parse_expr_call2() {
    let ctx = &mut Context::default();
    let inputs = &["foo bar", "(foo bar)", "((foo bar))"];
    for input in inputs {
        let e = ctx.parse_expr(input).unwrap();
        let e2 = Expr::Compose(vec![
            Expr::Call(ctx.intern("foo").unwrap()),
            Expr::Call(ctx.intern("bar").unwrap()),
        ]);
        assert_eq!(e, e2);
    }
}

#[test]
fn test_parse_expr_quote_call() {
    let ctx = &mut Context::default();
    let inputs = &["[foo]", "[(foo)]", "[((foo))]"];
    for input in inputs {
        let e = ctx.parse_expr(input).unwrap();
        let e2 = Expr::Quote(Box::new(Expr::Call(ctx.intern("foo").unwrap())));
        assert_eq!(e, e2);
    }
}

#[test]
fn test_parse_expr_quote_call2() {
    let ctx = &mut Context::default();
    let inputs = &["[foo bar]", "[(foo bar)]", "[((foo bar))]"];
    for input in inputs {
        let e = ctx.parse_expr(input).unwrap();
        let e2 = Expr::Quote(Box::new(Expr::Compose(vec![
            Expr::Call(ctx.intern("foo").unwrap()),
            Expr::Call(ctx.intern("bar").unwrap()),
        ])));
        assert_eq!(e, e2);
    }
}
