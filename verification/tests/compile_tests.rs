use bfjit::error::CompileErrorKind;
use bfjit::ir::compile;
use bfjit::ir::BrainfuckIR;

#[test]
fn compile_test() {
    let code = compile("+[,.]");
    assert_eq!(
        code.unwrap(),
        vec![
            BrainfuckIR::AddVal(1),
            BrainfuckIR::Jz,
            BrainfuckIR::GetByte,
            BrainfuckIR::PutByte,
            BrainfuckIR::Jnz,
        ]
    );

    let code = compile("[[]");
    assert_eq!(
        code.unwrap_err().kind,
        CompileErrorKind::UnclosedLeftBracket
    );

    let code = compile("[]]");
    assert_eq!(
        code.unwrap_err().kind,
        CompileErrorKind::UnexpectedRightBracket
    );
}

#[test]
fn optimize_test() {
    let code = compile("++++++++++----->><<");
    assert!(code.is_ok());
    let code = code.unwrap();
    assert_eq!(
        code,
        vec![
            BrainfuckIR::AddVal(10),
            BrainfuckIR::SubVal(5),
            BrainfuckIR::AddPtr(2),
            BrainfuckIR::SubPtr(2)
        ]
    );
}

#[test]
fn unclosed_bracket_reports_topmost_open_position() {
    let e = compile("[[]").unwrap_err();
    assert_eq!(e.kind, CompileErrorKind::UnclosedLeftBracket);
    assert_eq!((e.line, e.col), (1, 1));
}

#[test]
fn unexpected_right_bracket_reports_its_own_position() {
    let e = compile("[]]").unwrap_err();
    assert_eq!(e.kind, CompileErrorKind::UnexpectedRightBracket);
    assert_eq!((e.line, e.col), (1, 3));
}

#[test]
fn unknown_character_reports_position_across_lines() {
    let e = compile("+-\n+x").unwrap_err();
    assert_eq!(e.kind, CompileErrorKind::UnknownCharacter);
    assert_eq!((e.line, e.col), (2, 2));
}

#[test]
fn spaces_split_runs_and_are_skipped() {
    let code = compile("++ ++").unwrap();
    assert_eq!(code, vec![BrainfuckIR::AddVal(2), BrainfuckIR::AddVal(2)]);
}

#[test]
fn empty_source_compiles_to_empty_code() {
    assert_eq!(compile("").unwrap(), Vec::<BrainfuckIR>::new());
}

#[test]
fn long_run_folds_into_capped_payload_chunks() {
    let src = "+".repeat(300);
    let code = compile(&src).unwrap();
    assert_eq!(
        code,
        vec![BrainfuckIR::AddVal(255), BrainfuckIR::AddVal(45)]
    );
}

#[test]
fn balanced_source_has_equal_jump_counts() {
    let code = compile("+[>[,.]<]").unwrap();
    let jz = code.iter().filter(|x| **x == BrainfuckIR::Jz).count();
    let jnz = code.iter().filter(|x| **x == BrainfuckIR::Jnz).count();
    assert_eq!(jz, jnz);
    assert_eq!(jz, 2);
}
