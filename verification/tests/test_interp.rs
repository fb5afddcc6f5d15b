use ucc::command::HELP;
use ucc::interp::Interp;

#[test]
fn test_interp_interp() {
    let sessions = [
        &[
            (":drop", "Values dropped.\n"),
            (":clear", "Definitions cleared.\n"),
            ("{fn foo = }", "Defined `foo`.\n"),
            (":list", "foo\n"),
            (":show foo", "{fn foo = }\n"),
            ("{fn foo = drop}", "Redefined `foo`.\n"),
            (":show foo", "{fn foo = drop}\n"),
            ("{fn bar = }", "Defined `bar`.\n"),
            (":list", "bar foo\n"),
            (
                "{fn foo = }{fn bar = }",
                "Redefined `foo`.\nRedefined `bar`.\n",
            ),
            (":reset", "Reset.\n"),
            ("[false]", "⟨⟩ [false]\n⇓ ⟨[false]⟩ \n"),
            ("[true]", "⟨[false]⟩ [true]\n⇓ ⟨[false] [true]⟩ \n"),
            (
                "drop\n\n{fn foo =}drop",
                "⟨[false] [true]⟩ drop\n⇓ ⟨[false]⟩ \nDefined `foo`.\n⟨[false]⟩ drop\n⇓ ⟨⟩ \n",
            ),
        ][..],
        &[(":help", HELP)][..],
    ];
    for session in sessions {
        let mut interp = Interp::default();
        for &(input, expected_output) in session {
            let output = interp.interp(input, usize::MAX);
            assert_eq!(
                output, expected_output,
                "Failed on {:?}",
                (input, expected_output)
            );
        }
    }
}
