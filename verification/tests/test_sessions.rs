use ucc::command::{InterpCommand, InterpItem};
use ucc::display::{decimal, ResolvedExpr, ResolvedValue, ResolvedValueStack};
use ucc::interp::Interp;
use ucc::listing::name_le;
use ucc::non_blocking_interp::NonBlockingInterp;
use ucc::parse::{lex, read_command, read_expr, read_fn_def, read_stack, ParseError, ParsedCommand, Token};
use ucc::term::{EvalError, Expr, Intrinsic};

fn drain(interp: &mut NonBlockingInterp, input: &str) -> String {
    let mut out = interp.interp_start(input);
    while !interp.is_done() {
        out.push_str(&interp.interp_step());
    }
    out
}

#[test]
fn an_undefined_name_ends_the_command() {
    let mut interp = NonBlockingInterp::default();
    assert_eq!(
        drain(&mut interp, "foo {fn a = }"),
        "⟨⟩ foo\n⇓ ⟨⟩ foo\nUndefinedFn(\"foo\")\n"
    );
    assert!(interp.is_done());
    assert_eq!(drain(&mut interp, ":show a"), "Not defined.\n");
}

#[test]
fn too_few_values_is_put_out_with_both_depths() {
    let mut interp = NonBlockingInterp::default();
    assert_eq!(
        drain(&mut interp, "[x] swap"),
        "⟨⟩ [x] swap\n⇓ ⟨[x]⟩ swap\nTooFewValues { available: 1, expected: 2 }\n"
    );
    assert_eq!(
        drain(&mut interp, ":trace drop drop"),
        "⟨[x]⟩ drop drop\n⟶ ⟨⟩ drop\nTooFewValues { available: 0, expected: 1 }\n"
    );
}

#[test]
fn every_step_of_a_trace_is_put_out() {
    let mut interp = NonBlockingInterp::default();
    assert_eq!(interp.interp_start(":trace [drop] [x] swap"), "⟨⟩ [drop] [x] swap\n");
    assert!(!interp.is_done());
    assert_eq!(interp.interp_step(), "⟶ ⟨[drop]⟩ [x] swap\n= ⟨n0⟩ [x] swap\n");
    assert_eq!(interp.interp_step(), "⟶ ⟨n0 [x]⟩ swap\n");
    assert_eq!(interp.interp_step(), "⟶ ⟨[x] n0⟩ \n");
    assert!(!interp.is_done());
    assert_eq!(interp.interp_step(), "");
    assert!(interp.is_done());
}

#[test]
fn an_evaluation_does_one_unit_of_work_at_a_time() {
    let mut interp = NonBlockingInterp::default();
    assert_eq!(interp.interp_start("{fn a = [x]} a a"), "");
    assert!(!interp.is_done());
    assert_eq!(interp.interp_step(), "Defined `a`.\n");
    assert_eq!(interp.interp_step(), "⟨⟩ a a\n");
    assert_eq!(interp.interp_step(), "");
    assert_eq!(interp.interp_step(), "⇓ ⟨a a⟩ \n");
    assert!(!interp.is_done());
    assert_eq!(interp.interp_step(), "");
    assert!(interp.is_done());
}

#[test]
fn peano_arithmetic_in_a_session() {
    let mut interp = NonBlockingInterp::default();
    assert_eq!(drain(&mut interp, "n1 n1 add"), "⟨⟩ n1 n1 add\n⇓ ⟨n2⟩ \n");
    assert_eq!(drain(&mut interp, "n2 mul"), "⟨n2⟩ n2 mul\n⇓ ⟨n4⟩ \n");
    assert_eq!(drain(&mut interp, ":drop"), "Values dropped.\n");
    assert_eq!(drain(&mut interp, "[e] n1 n1 add apply"), "⟨⟩ [e] n1 n1 add apply\n⇓ ⟨⟩ e e\nUndefinedFn(\"e\")\n");
}

#[test]
fn unreadable_text_is_reported() {
    let mut interp = NonBlockingInterp::default();
    assert_eq!(drain(&mut interp, "a $ b"), "Unrecognized character.\n");
    assert_eq!(drain(&mut interp, "[a"), "Syntax error.\n");
    assert_eq!(drain(&mut interp, ":frobnicate"), "Syntax error.\n");
    assert_eq!(drain(&mut interp, ""), "");
    assert!(interp.is_done());
}

#[test]
fn list_puts_the_names_in_order() {
    let mut interp = NonBlockingInterp::default();
    assert_eq!(
        drain(&mut interp, ":list"),
        "add compose2 compose3 compose4 compose5 false mul n0 n1 n2 n3 n4 or quote2 quote3 rotate3 rotate4 succ true v1 v2 v3 v4\n"
    );
    assert_eq!(drain(&mut interp, ":clear"), "Definitions cleared.\n");
    assert_eq!(drain(&mut interp, ":list"), "\n");
    assert_eq!(drain(&mut interp, "{fn b = } {fn ab = } {fn a = } {fn B = }"), "Defined `b`.\nDefined `ab`.\nDefined `a`.\nDefined `B`.\n");
    assert_eq!(drain(&mut interp, ":list"), "B a ab b\n");
}

#[test]
fn show_writes_a_definition_out() {
    let mut interp = NonBlockingInterp::default();
    assert_eq!(
        drain(&mut interp, ":show n1"),
        "{fn n1 = [[clone] n0 apply [compose] n0 apply apply]}\n"
    );
    assert_eq!(drain(&mut interp, ":show or"), "{fn or = clone apply}\n");
    assert_eq!(drain(&mut interp, ":show nothing"), "Not defined.\n");
}

#[test]
fn start_takes_a_command_as_a_value() {
    let mut interp = NonBlockingInterp::default();
    assert_eq!(interp.start(InterpCommand::Help), ucc::command::HELP);
    assert_eq!(
        interp.start(InterpCommand::Trace(Expr::Intrinsic(Intrinsic::Drop))),
        "⟨⟩ drop\n"
    );
    assert_eq!(
        interp.interp_step(),
        "TooFewValues { available: 0, expected: 1 }\n"
    );
    assert!(interp.is_done());
    assert_eq!(
        interp.start(InterpCommand::Eval(vec![InterpItem::Expr(Expr::default())])),
        ""
    );
    assert_eq!(interp.interp_step(), "⟨⟩ \n⇓ ⟨⟩ \n");
    assert_eq!(interp.interp_step(), "");
    assert!(interp.is_done());
    let parsed = interp.read("{fn a = } [x]").unwrap();
    assert_eq!(parsed.clone(), parsed);
    assert_eq!(interp.read("]"), Err(ParseError::Syntax));
}

#[test]
fn the_batch_driver_stops_at_its_limit() {
    let mut interp = Interp::default();
    assert_eq!(
        interp.interp("[clone apply] clone apply", 10),
        "⟨⟩ [clone apply] clone apply\n"
    );
    assert!(!interp.is_done());
    assert_eq!(interp.resume(99), "");
    assert!(!interp.is_done());
    assert_eq!(interp.interp(":trace", 5), "⟨[clone apply]⟩ \n");
    assert!(interp.is_done());
    assert_eq!(interp.interp("[a] [b]", 0), "");
    assert!(!interp.is_done());
    assert_eq!(interp.resume(1), "⟨[clone apply]⟩ [a] [b]\n");
    assert_eq!(interp.resume(usize::MAX), "⇓ ⟨[clone apply] [a] [b]⟩ \n");
    assert!(interp.is_done());
    assert_eq!(interp.interp("a $", 5), "Unrecognized character.\n");
}

#[test]
fn numbers_are_written_in_decimal() {
    assert_eq!(decimal(0), "0");
    assert_eq!(decimal(7), "7");
    assert_eq!(decimal(10), "10");
    assert_eq!(decimal(1234567890), "1234567890");
    assert_eq!(decimal(usize::MAX), usize::MAX.to_string());
}

#[test]
fn errors_are_written_with_names() {
    let mut ctx = ucc::store::Context::default();
    let foo = ctx.intern("foo").unwrap();
    assert_eq!(EvalError::UndefinedFn(foo).describe(&ctx), "UndefinedFn(\"foo\")");
    assert_eq!(
        EvalError::TooFewValues { available: 12, expected: 2 }.describe(&ctx),
        "TooFewValues { available: 12, expected: 2 }"
    );
    assert_eq!(ParseError::Lex.describe(), "Unrecognized character.\n");
    assert_eq!(ParseError::Syntax.describe(), "Syntax error.\n");
    assert_eq!(ParseError::Names.describe(), "Too many names.\n");
}

#[test]
fn texts_are_ordered_by_code_point() {
    assert!(name_le("a", "b"));
    assert!(!name_le("b", "a"));
    assert!(name_le("a", "a"));
    assert!(name_le("", "a"));
    assert!(!name_le("a", ""));
    assert!(name_le("a", "ab"));
    assert!(!name_le("ab", "a"));
    assert!(name_le("Z", "a"));
    assert!(name_le("az", "b"));
    assert!(name_le("é", "⟨"));
}

#[test]
fn resolved_expressions_are_written_out() {
    let call = |s: &str| ResolvedExpr::Call(s.to_string());
    assert_eq!(ResolvedExpr::Empty.to_string(), "");
    assert_eq!(ResolvedExpr::Intrinsic(Intrinsic::Compose).to_string(), "compose");
    assert_eq!(Intrinsic::Swap.to_string(), "swap");
    assert_eq!(Intrinsic::Clone.to_string(), "clone");
    assert_eq!(Intrinsic::Drop.to_string(), "drop");
    assert_eq!(Intrinsic::Quote.to_string(), "quote");
    assert_eq!(Intrinsic::Apply.to_string(), "apply");
    assert_eq!(ResolvedExpr::Compose(vec![]).to_string(), "");
    assert_eq!(ResolvedExpr::Compose(vec![call("a")]).to_string(), "a");
    let nested = ResolvedExpr::Compose(vec![
        call("a"),
        ResolvedExpr::Compose(vec![call("b"), call("c")]),
        ResolvedExpr::Quote(Box::new(ResolvedExpr::Compose(vec![call("d"), call("e")]))),
    ]);
    assert_eq!(nested.to_string(), "a (b c) [d e]");
    assert!(nested.is_compose());
    assert!(!call("a").is_compose());
    assert!(!ResolvedExpr::Empty.is_compose());
    assert_eq!(nested.clone(), nested);
    let stack = ResolvedValueStack(vec![
        ResolvedValue::Call("n1".to_string()),
        ResolvedValue::Quote(Box::new(nested)),
        ResolvedValue::Quote(Box::new(ResolvedExpr::Compose(vec![]))),
    ]);
    assert_eq!(stack.to_string(), "⟨n1 [a (b c) [d e]] []⟩");
    assert_eq!(ResolvedValueStack(vec![]).to_string(), "⟨⟩");
    assert_eq!(stack.0[0].to_string(), "n1");
    assert_eq!(stack.0[0].clone(), stack.0[0]);
}

#[test]
fn text_is_split_into_tokens() {
    assert_eq!(
        lex("{fn a_1 = [x]}  (y)\t:show\n⟨⟩⟶⇓"),
        Some(vec![
            Token::LBrace,
            Token::Word("fn".to_string()),
            Token::Word("a_1".to_string()),
            Token::Equals,
            Token::LBracket,
            Token::Word("x".to_string()),
            Token::RBracket,
            Token::RBrace,
            Token::LParen,
            Token::Word("y".to_string()),
            Token::RParen,
            Token::Directive("show".to_string()),
            Token::LAngle,
            Token::RAngle,
            Token::Step,
            Token::BigStep,
        ])
    );
    assert_eq!(lex(""), Some(vec![]));
    assert_eq!(lex("a.b"), None);
    assert_eq!(lex(":"), Some(vec![Token::Directive(String::new())]));
}

#[test]
fn expressions_are_read_flat() {
    let call = |s: &str| ResolvedExpr::Call(s.to_string());
    assert_eq!(
        read_expr("a (b (c)) () d"),
        Ok(ResolvedExpr::Compose(vec![call("a"), call("b"), call("c"), call("d")]))
    );
    assert_eq!(read_expr("()"), Ok(ResolvedExpr::Compose(vec![])));
    assert_eq!(
        read_expr("[]"),
        Ok(ResolvedExpr::Quote(Box::new(ResolvedExpr::Compose(vec![]))))
    );
    assert_eq!(
        read_expr("[[a] swap]"),
        Ok(ResolvedExpr::Quote(Box::new(ResolvedExpr::Compose(vec![
            ResolvedExpr::Quote(Box::new(call("a"))),
            ResolvedExpr::Intrinsic(Intrinsic::Swap),
        ]))))
    );
    assert_eq!(read_expr("[a"), Err(ParseError::Syntax));
    assert_eq!(read_expr("a ]"), Err(ParseError::Syntax));
    assert_eq!(read_expr("(a ]"), Err(ParseError::Syntax));
    assert_eq!(read_expr("fn"), Err(ParseError::Syntax));
    assert_eq!(read_expr("a = b"), Err(ParseError::Syntax));
    assert_eq!(read_expr("a # b"), Err(ParseError::Lex));
}

#[test]
fn definitions_commands_and_stacks_are_read() {
    assert!(read_fn_def("{fn a = b c}").is_ok());
    assert_eq!(read_fn_def("{fn swap = }"), Err(ParseError::Syntax));
    assert_eq!(read_fn_def("{fn fn = }"), Err(ParseError::Syntax));
    assert_eq!(read_fn_def("{fn a = } b"), Err(ParseError::Syntax));
    assert_eq!(read_fn_def("{fn a b}"), Err(ParseError::Syntax));
    assert_eq!(read_fn_def("{a = b}"), Err(ParseError::Syntax));
    assert_eq!(read_command(":list"), Ok(ParsedCommand::List));
    assert_eq!(read_command(":drop"), Ok(ParsedCommand::Drop));
    assert_eq!(read_command(":clear"), Ok(ParsedCommand::Clear));
    assert_eq!(read_command(":reset"), Ok(ParsedCommand::Reset));
    assert_eq!(read_command(" :help "), Ok(ParsedCommand::Help));
    assert_eq!(read_command(":show a"), Ok(ParsedCommand::Show("a".to_string())));
    assert_eq!(read_command(":show"), Err(ParseError::Syntax));
    assert_eq!(read_command(":show a b"), Err(ParseError::Syntax));
    assert_eq!(read_command(":show swap"), Err(ParseError::Syntax));
    assert_eq!(read_command(":list a"), Err(ParseError::Syntax));
    assert_eq!(
        read_command(":trace"),
        Ok(ParsedCommand::Trace(ResolvedExpr::Compose(vec![])))
    );
    assert_eq!(read_command("() ()"), Ok(ParsedCommand::Eval(vec![])));
    assert_eq!(read_command("a }"), Err(ParseError::Syntax));
    assert_eq!(
        read_stack("⟨a [b]⟩"),
        Ok(ResolvedValueStack(vec![
            ResolvedValue::Call("a".to_string()),
            ResolvedValue::Quote(Box::new(ResolvedExpr::Call("b".to_string()))),
        ]))
    );
    assert_eq!(read_stack("⟨swap⟩"), Err(ParseError::Syntax));
    assert_eq!(read_stack("⟨a"), Err(ParseError::Syntax));
    assert_eq!(read_stack("a⟩"), Err(ParseError::Syntax));
    assert_eq!(read_stack("⟨a⟩ b"), Err(ParseError::Syntax));
}

const BOOTSTRAP_NAMES: &str = "add compose2 compose3 compose4 compose5 false mul n0 n1 n2 n3 n4 or quote2 quote3 rotate3 rotate4 succ true v1 v2 v3 v4\n";

#[test]
fn a_fresh_session_holds_the_bootstrap_definitions() {
    let mut first = NonBlockingInterp::default();
    let mut second = NonBlockingInterp::default();
    assert!(first.is_done());
    assert_eq!(drain(&mut first, ":list"), BOOTSTRAP_NAMES);
    assert_eq!(drain(&mut second, ":list"), BOOTSTRAP_NAMES);
    assert_eq!(BOOTSTRAP_NAMES.split_whitespace().count(), 23);
    assert_eq!(drain(&mut first, ":show true"), "{fn true = [swap drop]}\n");
    assert_eq!(drain(&mut first, ":show or"), "{fn or = clone apply}\n");
    for name in BOOTSTRAP_NAMES.split_whitespace() {
        let shown = drain(&mut first, &format!(":show {}", name));
        assert_eq!(shown, drain(&mut second, &format!(":show {}", name)));
        assert!(shown.starts_with(&format!("{{fn {} = ", name)), "{}", shown);
    }
    assert_eq!(drain(&mut first, ""), "");
    let mut batch = Interp::default();
    assert_eq!(batch.interp(":list", 0), BOOTSTRAP_NAMES);
}

#[test]
fn reset_gives_the_bootstrap_definitions_back() {
    let mut interp = NonBlockingInterp::default();
    assert_eq!(drain(&mut interp, "{fn true = } {fn mine = [x]} [y]"), "Redefined `true`.\nDefined `mine`.\n⟨⟩ [y]\n⇓ ⟨[y]⟩ \n");
    assert_eq!(drain(&mut interp, ":clear"), "Definitions cleared.\n");
    assert_eq!(drain(&mut interp, ":list"), "\n");
    assert_eq!(drain(&mut interp, ":reset"), "Reset.\n");
    assert!(interp.is_done());
    assert_eq!(drain(&mut interp, ":list"), BOOTSTRAP_NAMES);
    assert_eq!(drain(&mut interp, ":show true"), "{fn true = [swap drop]}\n");
    assert_eq!(drain(&mut interp, ":show mine"), "Not defined.\n");
    assert_eq!(drain(&mut interp, ""), "");
    assert_eq!(drain(&mut interp, ":trace"), "⟨⟩ \n");
}

#[test]
fn a_new_name_is_always_taken() {
    let mut interp = NonBlockingInterp::default();
    assert_eq!(drain(&mut interp, "{fn foo = [foo]}"), "Defined `foo`.\n");
    assert_eq!(
        drain(&mut interp, "brand_new_name"),
        "⟨⟩ brand_new_name\n⇓ ⟨⟩ brand_new_name\nUndefinedFn(\"brand_new_name\")\n"
    );
    let mut ctx = ucc::store::Context::default();
    assert_eq!(ctx.intern("a"), Some(ucc::term::Symbol(0)));
    assert_eq!(ctx.intern("b"), Some(ucc::term::Symbol(1)));
    assert_eq!(ctx.intern("a"), Some(ucc::term::Symbol(0)));
    assert_eq!(ctx.intern(""), Some(ucc::term::Symbol(2)));
    assert_eq!(ctx.resolve(ucc::term::Symbol(1)), Some("b".to_string()));
    assert_eq!(ctx.resolve(ucc::term::Symbol(2)), Some(String::new()));
    assert_eq!(ctx.resolve(ucc::term::Symbol(3)), None);
    for i in 0..1000 {
        assert_eq!(ctx.intern(&format!("name{}", i)), Some(ucc::term::Symbol(3 + i)));
    }
}
