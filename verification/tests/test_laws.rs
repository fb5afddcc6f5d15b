use ucc::eval::join_exprs;
use ucc::store::{Context, FnDef};
use ucc::term::{EvalError, Expr, Intrinsic, Symbol, Value, ValueStack};

fn quote(e: Expr) -> Value {
    Value::Quote(Box::new(e))
}

fn run(ctx: &mut Context, vs: &mut ValueStack, e: &mut Expr, max: usize) -> Result<usize, EvalError> {
    let mut steps = 0;
    while !e.is_done() && steps < max {
        ctx.small_step(vs, e)?;
        steps += 1;
    }
    Ok(steps)
}

#[test]
fn too_few_values_reports_depths_and_changes_nothing() {
    let cases = [
        (Intrinsic::Swap, 2),
        (Intrinsic::Clone, 1),
        (Intrinsic::Drop, 1),
        (Intrinsic::Quote, 1),
        (Intrinsic::Compose, 2),
        (Intrinsic::Apply, 1),
    ];
    for (op, expected) in cases {
        for available in 0..expected {
            let mut ctx = Context::default();
            let x = ctx.intern("x").unwrap();
            let mut vs = ValueStack((0..available).map(|_| quote(Expr::Call(x))).collect());
            let before = vs.clone();
            let mut e = Expr::Intrinsic(op);
            assert_eq!(
                ctx.small_step(&mut vs, &mut e),
                Err(EvalError::TooFewValues { available, expected })
            );
            assert_eq!(vs, before);
            assert_eq!(e, Expr::Intrinsic(op));
        }
    }
}

#[test]
fn enough_values_is_no_error_of_depth() {
    let mut ctx = Context::default();
    let x = ctx.intern("x").unwrap();
    let mut vs = ValueStack(vec![quote(Expr::Call(x)), quote(Expr::Call(x))]);
    let mut e = Expr::Intrinsic(Intrinsic::Swap);
    assert_eq!(ctx.small_step(&mut vs, &mut e), Ok(()));
}

#[test]
fn composing_is_associative() {
    let mut ctx = Context::default();
    let terms = ["a b", "c", "", "[d] e", "[f g]", "h i j"];
    for a in terms {
        for b in terms {
            for c in terms {
                let ea = ctx.parse_expr(a).unwrap();
                let eb = ctx.parse_expr(b).unwrap();
                let ec = ctx.parse_expr(c).unwrap();
                let left = join_exprs(join_exprs(ea.clone(), eb.clone()), ec.clone());
                let right = join_exprs(ea, join_exprs(eb, ec));
                assert_eq!(left, right, "{} | {} | {}", a, b, c);
            }
        }
    }
}

#[test]
fn composing_on_the_stack_is_associative() {
    let mut ctx = Context::default();
    // a·(b·c): the two upper values are joined first.
    let mut right = ctx.parse_value_stack("⟨[a b] [c] [d e]⟩").unwrap();
    let mut e = ctx.parse_expr("compose compose").unwrap();
    assert_eq!(run(&mut ctx, &mut right, &mut e, 10), Ok(2));
    // (a·b)·c: the two lower values are joined first.
    let mut left = ctx.parse_value_stack("⟨[a b] [c]⟩").unwrap();
    let mut f = ctx.parse_expr("compose [d e] compose").unwrap();
    assert_eq!(run(&mut ctx, &mut left, &mut f, 10), Ok(3));
    assert_eq!(left, right);
    assert_eq!(left.resolve(&ctx).to_string(), "⟨[a b c d e]⟩");
}

#[test]
fn compose_collapses_a_single_element() {
    let mut ctx = Context::default();
    let mut vs = ctx.parse_value_stack("⟨[] [a]⟩").unwrap();
    let mut e = Expr::Intrinsic(Intrinsic::Compose);
    assert_eq!(ctx.small_step(&mut vs, &mut e), Ok(()));
    let a = ctx.intern("a").unwrap();
    assert_eq!(vs, ValueStack(vec![quote(Expr::Call(a))]));
    let mut ws = ctx.parse_value_stack("⟨[] []⟩").unwrap();
    let mut f = Expr::Intrinsic(Intrinsic::Compose);
    assert_eq!(ctx.small_step(&mut ws, &mut f), Ok(()));
    assert_eq!(ws, ValueStack(vec![quote(Expr::default())]));
}

#[test]
fn quote_then_apply_reaches_the_state_of_the_expression() {
    let mut ctx = Context::with_builtins();
    for src in ["swap drop", "n1 apply", "[a] [b] compose", "", "clone"] {
        let body = ctx.parse_expr(src).unwrap();
        let mut vs = ctx.parse_value_stack("⟨[x] [y]⟩").unwrap();
        let before = vs.clone();
        let mut e = Expr::Compose(vec![
            Expr::Quote(Box::new(body.clone())),
            Expr::Intrinsic(Intrinsic::Apply),
        ]);
        assert_eq!(ctx.small_step(&mut vs, &mut e), Ok(()));
        assert_eq!(e, Expr::Intrinsic(Intrinsic::Apply));
        assert_eq!(ctx.small_step(&mut vs, &mut e), Ok(()));
        assert_eq!(vs, before);
        assert_eq!(e, body);
    }
}

#[test]
fn compressing_twice_changes_nothing_more() {
    let mut ctx = Context::with_builtins();
    let mut vs = ctx
        .parse_value_stack("⟨[swap drop] [x] true [drop] [[drop]]⟩")
        .unwrap();
    assert!(ctx.compress(&mut vs));
    assert_eq!(vs.resolve(&ctx).to_string(), "⟨true [x] true n0 [[drop]]⟩");
    let once = vs.clone();
    assert!(!ctx.compress(&mut vs));
    assert_eq!(vs, once);
}

#[test]
fn compress_leaves_unknown_literals_and_names() {
    let mut ctx = Context::with_builtins();
    let mut vs = ctx.parse_value_stack("⟨[x] n1 [swap]⟩").unwrap();
    let before = vs.clone();
    assert!(!ctx.compress(&mut vs));
    assert_eq!(vs, before);
    let mut empty = ValueStack::default();
    assert!(!ctx.compress(&mut empty));
    assert_eq!(empty, ValueStack(vec![]));
}

#[test]
fn a_compressed_value_is_bound_late() {
    let mut ctx = Context::default();
    let t = ctx.intern("t").unwrap();
    let first = ctx.parse_fn_def("{fn t = [swap drop]}").unwrap();
    assert_eq!(ctx.define_fn(first), None);
    let mut vs = ctx.parse_value_stack("⟨[x] [y] [swap drop]⟩").unwrap();
    assert!(ctx.compress(&mut vs));
    assert_eq!(vs.0[2], Value::Call(t));
    let second = ctx.parse_fn_def("{fn t = [drop]}").unwrap();
    assert!(ctx.define_fn(second).is_some());
    let mut e = Expr::Intrinsic(Intrinsic::Apply);
    assert_eq!(ctx.small_step(&mut vs, &mut e), Ok(()));
    assert_eq!(e, Expr::Intrinsic(Intrinsic::Drop));
    assert_eq!(vs.resolve(&ctx).to_string(), "⟨[x] [y]⟩");
}

#[test]
fn a_name_redefined_as_code_is_a_bad_call_target() {
    let mut ctx = Context::default();
    let t = ctx.intern("t").unwrap();
    let first = ctx.parse_fn_def("{fn t = [drop]}").unwrap();
    ctx.define_fn(first);
    let mut vs = ctx.parse_value_stack("⟨[x] [drop]⟩").unwrap();
    assert!(ctx.compress(&mut vs));
    let second = ctx.parse_fn_def("{fn t = swap}").unwrap();
    ctx.define_fn(second);
    let before = vs.clone();
    let mut e = Expr::Intrinsic(Intrinsic::Apply);
    assert_eq!(
        ctx.small_step(&mut vs, &mut e),
        Err(EvalError::BadCallTarget(t))
    );
    assert_eq!(vs, before);
    assert_eq!(e, Expr::Intrinsic(Intrinsic::Apply));
    let mut f = Expr::Intrinsic(Intrinsic::Compose);
    assert_eq!(
        ctx.small_step(&mut vs, &mut f),
        Err(EvalError::BadCallTarget(t))
    );
    assert_eq!(vs, before);
    assert_eq!(
        EvalError::BadCallTarget(t).describe(&ctx),
        "BadCallTarget(\"t\")"
    );
}

#[test]
fn the_reverse_index_is_not_pruned() {
    let mut ctx = Context::default();
    let t = ctx.intern("t").unwrap();
    let def = ctx.parse_fn_def("{fn t = [drop]}").unwrap();
    ctx.define_fn(def);
    ctx.clear();
    assert_eq!(ctx.lookup(t), None);
    assert_eq!(ctx.symbols(), vec![]);
    let mut vs = ctx.parse_value_stack("⟨[drop]⟩").unwrap();
    assert!(ctx.compress(&mut vs));
    assert_eq!(vs, ValueStack(vec![Value::Call(t)]));
    let before = vs.clone();
    let mut e = Expr::Intrinsic(Intrinsic::Apply);
    assert_eq!(
        ctx.small_step(&mut vs, &mut e),
        Err(EvalError::UndefinedFn(t))
    );
    assert_eq!(vs, before);
}

#[test]
fn only_quoted_bodies_enter_the_reverse_index() {
    let mut ctx = Context::default();
    let def = ctx.parse_fn_def("{fn twice = clone compose}").unwrap();
    ctx.define_fn(def);
    let body = ctx.parse_expr("clone compose").unwrap();
    assert_eq!(ctx.name_of(&body), None);
    let quoted = ctx.parse_fn_def("{fn q = [clone compose]}").unwrap();
    ctx.define_fn(quoted);
    let q = ctx.intern("q").unwrap();
    assert_eq!(ctx.name_of(&Expr::Quote(Box::new(body))), Some(q));
}

#[test]
fn a_failed_compose_leaves_both_values() {
    let mut ctx = Context::default();
    let missing = ctx.intern("missing").unwrap();
    let x = ctx.intern("x").unwrap();
    let mut vs = ValueStack(vec![Value::Call(missing), quote(Expr::Call(x))]);
    let before = vs.clone();
    let mut e = Expr::Intrinsic(Intrinsic::Compose);
    assert_eq!(
        ctx.small_step(&mut vs, &mut e),
        Err(EvalError::UndefinedFn(missing))
    );
    assert_eq!(vs, before);
    assert_eq!(e, Expr::Intrinsic(Intrinsic::Compose));
}

#[test]
fn the_top_value_is_resolved_first() {
    let mut ctx = Context::default();
    let a = ctx.intern("a").unwrap();
    let b = ctx.intern("b").unwrap();
    let mut vs = ValueStack(vec![Value::Call(a), Value::Call(b)]);
    let mut e = Expr::Intrinsic(Intrinsic::Compose);
    assert_eq!(
        ctx.small_step(&mut vs, &mut e),
        Err(EvalError::UndefinedFn(b))
    );
}

#[test]
fn a_call_of_a_quotation_pushes_the_name() {
    let mut ctx = Context::with_builtins();
    let n1 = ctx.intern("n1").unwrap();
    let mut vs = ValueStack::default();
    let mut e = Expr::Call(n1);
    assert_eq!(ctx.small_step(&mut vs, &mut e), Ok(()));
    assert_eq!(vs, ValueStack(vec![Value::Call(n1)]));
    assert!(e.is_done());
}

#[test]
fn a_call_of_code_is_replaced_by_the_body() {
    let mut ctx = Context::with_builtins();
    let or = ctx.intern("or").unwrap();
    let mut vs = ValueStack::default();
    let mut e = Expr::Call(or);
    assert_eq!(ctx.small_step(&mut vs, &mut e), Ok(()));
    assert_eq!(vs, ValueStack(vec![]));
    assert_eq!(e, ctx.parse_expr("clone apply").unwrap());
}

#[test]
fn an_undefined_call_fails_and_stays() {
    let mut ctx = Context::default();
    let foo = ctx.intern("foo").unwrap();
    let mut vs = ValueStack::default();
    let mut e = ctx.parse_expr("foo bar").unwrap();
    assert_eq!(
        ctx.small_step(&mut vs, &mut e),
        Err(EvalError::UndefinedFn(foo))
    );
    assert_eq!(e, ctx.parse_expr("foo bar").unwrap());
    assert_eq!(vs, ValueStack(vec![]));
}

#[test]
fn the_empty_composition_steps_to_itself() {
    let mut ctx = Context::default();
    let mut vs = ctx.parse_value_stack("⟨[x]⟩").unwrap();
    let before = vs.clone();
    let mut e = Expr::default();
    assert_eq!(ctx.small_step(&mut vs, &mut e), Ok(()));
    assert_eq!(e, Expr::default());
    assert_eq!(vs, before);
}

#[test]
fn the_leftmost_element_steps_first() {
    let mut ctx = Context::with_builtins();
    let mut vs = ValueStack::default();
    let mut e = ctx.parse_expr("[a] [b] swap or").unwrap();
    assert_eq!(ctx.small_step(&mut vs, &mut e), Ok(()));
    assert_eq!(e, ctx.parse_expr("[b] swap or").unwrap());
    assert_eq!(ctx.small_step(&mut vs, &mut e), Ok(()));
    assert_eq!(e, ctx.parse_expr("swap or").unwrap());
    assert_eq!(ctx.small_step(&mut vs, &mut e), Ok(()));
    assert_eq!(e, ctx.parse_expr("or").unwrap());
    assert_eq!(vs.resolve(&ctx).to_string(), "⟨[b] [a]⟩");
    assert_eq!(ctx.small_step(&mut vs, &mut e), Ok(()));
    assert_eq!(e, ctx.parse_expr("clone apply").unwrap());
}

#[test]
fn quote_wraps_names_and_literals() {
    let mut ctx = Context::with_builtins();
    let n0 = ctx.intern("n0").unwrap();
    let mut vs = ValueStack(vec![Value::Call(n0)]);
    let mut e = Expr::Intrinsic(Intrinsic::Quote);
    assert_eq!(ctx.small_step(&mut vs, &mut e), Ok(()));
    assert_eq!(vs, ValueStack(vec![quote(Expr::Call(n0))]));
    let mut f = Expr::Intrinsic(Intrinsic::Quote);
    assert_eq!(ctx.small_step(&mut vs, &mut f), Ok(()));
    assert_eq!(
        vs,
        ValueStack(vec![quote(Expr::Quote(Box::new(Expr::Call(n0))))])
    );
}

#[test]
fn define_replaces_and_returns_the_previous_definition() {
    let mut ctx = Context::default();
    let f = ctx.intern("f").unwrap();
    let g = ctx.intern("g").unwrap();
    assert_ne!(f, g);
    assert_eq!(ctx.intern("f"), Some(f));
    assert_eq!(ctx.resolve(f), Some("f".to_string()));
    assert_eq!(ctx.resolve(g), Some("g".to_string()));
    assert_eq!(ctx.resolve(Symbol(7)), None);
    assert_eq!(
        ctx.define_fn(FnDef(f, Expr::Intrinsic(Intrinsic::Swap))),
        None
    );
    assert_eq!(
        ctx.define_fn(FnDef(g, Expr::Intrinsic(Intrinsic::Drop))),
        None
    );
    assert_eq!(
        ctx.define_fn(FnDef(f, Expr::Intrinsic(Intrinsic::Clone))),
        Some(FnDef(f, Expr::Intrinsic(Intrinsic::Swap)))
    );
    assert_eq!(ctx.lookup(f), Some(&Expr::Intrinsic(Intrinsic::Clone)));
    assert_eq!(ctx.lookup(g), Some(&Expr::Intrinsic(Intrinsic::Drop)));
    let mut symbols = ctx.symbols();
    symbols.sort_by_key(|s| s.0);
    assert_eq!(symbols, vec![f, g]);
    assert_eq!(
        ctx.list_names(),
        vec!["f".to_string(), "g".to_string()]
    );
}

#[test]
fn reading_back_what_is_written_gives_the_expression() {
    let mut ctx = Context::with_builtins();
    for src in ["", "swap", "n1 [n2 [x y] compose] apply", "[[[]]] a"] {
        let e = ctx.parse_expr(src).unwrap();
        let written = e.resolve(&ctx);
        assert_eq!(ctx.intern_expr(&written), Some(e.clone()));
        assert_eq!(ucc::parse::read_expr(&written.to_string()), Ok(written));
    }
}
