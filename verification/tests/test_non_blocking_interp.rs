use ucc::command::HELP;
use ucc::non_blocking_interp::NonBlockingInterp;

#[test]
fn test_non_blocking_interp() {
    let sessions = [
        &[
            (":drop", "Values dropped.\n"),
            (":clear", "Definitions cleared.\n"),
            ("{fn foo = }", "Defined `foo`.\n"),
            (":list", "foo\n"),
            (":show foo", "{fn foo = }\n"),
            ("{fn foo = drop}", "Redefined `foo`.\n"),
            (":show foo", "{fn foo = drop}\n"),
            ("{fn bar = }", "Defined `bar`.\n"),
            (":list", "bar foo\n"),
            (
                "{fn foo = }{fn bar = }",
                "Redefined `foo`.\nRedefined `bar`.\n",
            ),
            (":reset", "Reset.\n"),
            ("[false]", "⟨⟩ [false]\n⇓ ⟨[false]⟩ \n"),
            ("[true]", "⟨[false]⟩ [true]\n⇓ ⟨[false] [true]⟩ \n"),
            (
                "drop\n\n{fn foo =}drop",
                "⟨[false] [true]⟩ drop\n⇓ ⟨[false]⟩ \nDefined `foo`.\n⟨[false]⟩ drop\n⇓ ⟨⟩ \n",
            ),
        ][..],
        &[(":help", HELP)][..],
        &[(
            "[true] foo",
            "⟨⟩ [true] foo\n⇓ ⟨[true]⟩ foo\nUndefinedFn(\"foo\")\n",
        )][..],
        &[(
            ":trace [true] foo",
            "⟨⟩ [true] foo\n⟶ ⟨[true]⟩ foo\nUndefinedFn(\"foo\")\n",
        )][..],
    ];
    let mut buffer = String::with_capacity(4096);
    for session in sessions {
        let mut interp = NonBlockingInterp::default();
        for &(input, expected_output) in session {
            buffer.clear();
            buffer.push_str(&interp.interp_start(input));
            while !interp.is_done() {
                buffer.push_str(&interp.interp_step());
            }
            assert_eq!(
                buffer, expected_output,
                "Failed on {:?}",
                (input, expected_output)
            );
        }
    }
}
