use ucc::builtin::{fn_def_src, FN_DEF_COUNT};
use ucc::store::{Context, FnDef};
use ucc::term::Expr;

fn context_with_builtins() -> Context {
    let mut ctx = Context::default();
    for i in 0..FN_DEF_COUNT {
        let fn_def = ctx.parse_fn_def(fn_def_src(i)).unwrap();
        assert_eq!(ctx.define_fn(fn_def), None);
    }
    ctx
}

#[test]
fn test_small_step() {
    let cases = [
        "⟨[e1] [e2]⟩ swap ⟶ ⟨[e2] [e1]⟩",
        "⟨[e1]⟩ clone ⟶ ⟨[e1] [e1]⟩",
        "⟨[e1]⟩ drop ⟶ ⟨⟩",
        "⟨[e1]⟩ quote ⟶ ⟨[[e1]]⟩",
        "⟨[e1] [e2]⟩ compose ⟶ ⟨[e1 e2]⟩",
        "⟨[e1]⟩ apply ⟶ ⟨⟩ e1",
    ];
    for case in cases {
        let mut ctx = Context::default();
        let mut ssa = ctx.parse_assertion(case, false).unwrap();
        let result = ctx.small_step(&mut ssa.0, &mut ssa.1);
        assert_eq!(result, Ok(()), "Failed on {}", case);
        assert_eq!(ssa.0, ssa.2, "Failed on {}", case);
        assert_eq!(ssa.1, ssa.3, "Failed on {}", case);
    }
}

#[test]
fn test_compress() {
    let cases = [
        ("⟨[swap drop]⟩", "⟨true⟩", true),
        ("⟨[drop]⟩", "⟨n0⟩", true),
        (
            "⟨[[clone] n0 apply [compose] n0 apply apply]⟩",
            "⟨n1⟩",
            true,
        ),
        (
            "⟨[[clone] n1 apply [compose] n1 apply apply]⟩",
            "⟨n2⟩",
            true,
        ),
        (
            "⟨[[clone] n2 apply [compose] n2 apply apply]⟩",
            "⟨n3⟩",
            true,
        ),
        (
            "⟨[[clone] n3 apply [compose] n3 apply apply]⟩",
            "⟨n4⟩",
            true,
        ),
    ];
    for (input_src, expected_src, expected_result) in cases {
        let mut ctx = context_with_builtins();
        let mut input = ctx.parse_value_stack(input_src).unwrap();
        let expected = ctx.parse_value_stack(expected_src).unwrap();
        let result = ctx.compress(&mut input);
        assert_eq!(
            (input.resolve(&ctx), result),
            (expected.resolve(&ctx), expected_result),
            "Failed on ({}, {})",
            input_src,
            expected_src
        );
    }
}

#[test]
fn test_define_fn() {
    let mut ctx = Context::default();
    let sym = ctx.intern("foo").unwrap();
    let fn_def1 = ctx.parse_fn_def("{fn foo = e1}").unwrap();
    let e1 = ctx.parse_expr("e1").unwrap();
    let fn_def2 = ctx.parse_fn_def("{fn foo = e2}").unwrap();
    let e2 = ctx.parse_expr("e2").unwrap();
    assert_eq!(ctx.lookup(sym), None);
    assert_eq!(ctx.define_fn(fn_def1), None);
    assert_eq!(ctx.lookup(sym), Some(&e1));
    assert_eq!(ctx.define_fn(fn_def2), Some(FnDef(sym, e1)));
    assert_eq!(ctx.lookup(sym), Some(&e2));
}

#[test]
fn test_big_step() {
    const MAX_SMALL_STEPS: usize = 1000;
    let cases = [
        "⟨v1 v2⟩ swap swap ⇓ ⟨v1 v2⟩",
        "⟨v1 v2⟩ false apply ⇓ ⟨v1⟩",
        "⟨v1 v2⟩ true apply ⇓ ⟨v2⟩",
        "⟨false false⟩ or ⇓ ⟨false⟩",
        "⟨false true⟩ or ⇓ ⟨true⟩",
        "⟨true false⟩ or ⇓ ⟨true⟩",
        "⟨true true⟩ or ⇓ ⟨true⟩",
        "⟨v1 v2⟩ quote2 ⇓ ⟨[v1 v2]⟩",
        "⟨v1 v2 v3⟩ quote3 ⇓ ⟨[v1 v2 v3]⟩",
        "⟨v1 v2 v3⟩ rotate3 ⇓ ⟨v2 v3 v1⟩",
        "⟨v1 v2 v3 v4⟩ rotate4 ⇓ ⟨v2 v3 v4 v1⟩",
        "⟨[v1] [v2]⟩ compose2 ⇓ ⟨[v1 v2]⟩",
        "⟨[v1] [v2] [v3]⟩ compose3 ⇓ ⟨[v1 v2 v3]⟩",
        "⟨[v1] [v2] [v3] [v4]⟩ compose4 ⇓ ⟨[v1 v2 v3 v4]⟩",
        "⟨[v1] [v2] [v3] [v4] [v5]⟩ compose5 ⇓ ⟨[v1 v2 v3 v4 v5]⟩",
        "⟨[e]⟩ n0 apply ⇓ ⟨⟩",
        "⟨[e]⟩ n1 apply ⇓ ⟨⟩ e",
        "⟨[e]⟩ n2 apply ⇓ ⟨⟩ e e",
        "⟨[e]⟩ n3 apply ⇓ ⟨⟩ e e e",
        "⟨[e]⟩ n4 apply ⇓ ⟨⟩ e e e e",
        "⟨[e] n0⟩ succ apply ⇓ ⟨⟩ e",
        "⟨[e] n0⟩ succ succ apply ⇓ ⟨⟩ e e",
        "⟨[e] n0⟩ succ succ succ apply ⇓ ⟨⟩ e e e",
        "⟨[e] n1⟩ succ apply ⇓ ⟨⟩ e e",
        "⟨[e] n2⟩ succ apply ⇓ ⟨⟩ e e e",
        "⟨[e] n0 n0⟩ add apply ⇓ ⟨⟩",
        "⟨[e] n0 n1⟩ add apply ⇓ ⟨⟩ e",
        "⟨[e] n1 n0⟩ add apply ⇓ ⟨⟩ e",
        "⟨[e] n1 n1⟩ add apply ⇓ ⟨⟩ e e",
        "⟨[e] n1 n2⟩ add apply ⇓ ⟨⟩ e e e",
        "⟨[e] n2 n1⟩ add apply ⇓ ⟨⟩ e e e",
        "⟨[e] n2 n2⟩ add apply ⇓ ⟨⟩ e e e e",
        "⟨[e] n0 n0⟩ mul apply ⇓ ⟨⟩",
        "⟨[e] n0 n1⟩ mul apply ⇓ ⟨⟩",
        "⟨[e] n1 n0⟩ mul apply ⇓ ⟨⟩",
        "⟨[e] n1 n1⟩ mul apply ⇓ ⟨⟩ e",
        "⟨[e] n1 n2⟩ mul apply ⇓ ⟨⟩ e e",
        "⟨[e] n2 n1⟩ mul apply ⇓ ⟨⟩ e e",
        "⟨[e] n2 n2⟩ mul apply ⇓ ⟨⟩ e e e e",
        "⟨⟩ [clone apply] clone apply ⇓ ⟨[clone apply]⟩ clone apply",
    ];
    let mut ctx = context_with_builtins();
    for case in cases {
        println!("\n{}", case);
        let mut ssa = ctx.parse_assertion(case, true).unwrap();
        'eval: for step in 1..=MAX_SMALL_STEPS {
            assert_eq!(
                ctx.small_step(&mut ssa.0, &mut ssa.1),
                Ok(()),
                "Failed on {}",
                case
            );
            println!(
                "⟶ {} {}",
                ssa.0.resolve(&ctx).to_string(),
                ssa.1.resolve(&ctx).to_string()
            );
            if ssa.0 == ssa.2 && ssa.1 == ssa.3 {
                break 'eval;
            } else if step == MAX_SMALL_STEPS {
                panic!("Reached MAX_SMALL_STEPS on {}", case);
            }
        }
    }
}

#[test]
fn with_builtins_installs_every_definition() {
    let ctx = Context::with_builtins();
    assert_eq!(ctx.symbols().len(), FN_DEF_COUNT);
    let mut other = context_with_builtins();
    let n4 = other.intern("n4").unwrap();
    let body = other
        .parse_expr("[[clone] n3 apply [compose] n3 apply apply]")
        .unwrap();
    assert_eq!(ctx.lookup(n4), Some(&body));
    assert_eq!(Expr::default(), other.parse_expr("").unwrap());
}

#[test]
fn install_defines_a_definition_and_skips_other_text() {
    let mut ctx = Context::default();
    assert_eq!(ctx.install_fn_def("{fn twice = clone compose}"), Ok(()));
    let twice = ctx.intern("twice").unwrap();
    let body = ctx.parse_expr("clone compose").unwrap();
    assert_eq!(ctx.lookup(twice), Some(&body));
    assert_eq!(ctx.symbols(), vec![twice]);
    // A text that is no definition installs nothing and is no failure.
    assert_eq!(ctx.install_fn_def("twice twice"), Ok(()));
    assert_eq!(ctx.install_fn_def("{fn = }"), Ok(()));
    assert_eq!(ctx.install_fn_def("{fn a $ b}"), Ok(()));
    assert_eq!(ctx.symbols(), vec![twice]);
    assert_eq!(ctx.resolve(ucc::term::Symbol(1)), None);
    // Every name is held already: the definition is replaced.
    assert_eq!(ctx.install_fn_def("{fn twice = [twice]}"), Ok(()));
    let quoted = ctx.parse_expr("[twice]").unwrap();
    assert_eq!(ctx.lookup(twice), Some(&quoted));
    assert_eq!(ctx.resolve(ucc::term::Symbol(1)), None);
}
