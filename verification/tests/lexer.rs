use cdl::error::CompileError;
use cdl::lexer::{tokenize, LexToken, Lexer};

fn ident(s: &str) -> LexToken {
    LexToken::Ident(s.to_string())
}

#[test]
fn lexes_a_module() {
    let tokens = tokenize("mod main(x:$A) -> $A { output(x); }").unwrap();
    assert_eq!(
        tokens,
        vec![
            LexToken::KeyMod,
            ident("main"),
            LexToken::OpParenOpen,
            ident("x"),
            LexToken::OpColon,
            LexToken::Symbol("A".to_string()),
            LexToken::OpParenClose,
            LexToken::OpThinArrow,
            LexToken::Symbol("A".to_string()),
            LexToken::OpBraceOpen,
            LexToken::KeyOutput,
            LexToken::OpParenOpen,
            ident("x"),
            LexToken::OpParenClose,
            LexToken::OpSemicolon,
            LexToken::OpBraceClose,
        ]
    );
}

#[test]
fn lexes_keywords_and_names() {
    assert_eq!(
        tokenize("mod output let if match const model _x a1_b").unwrap(),
        vec![
            LexToken::KeyMod,
            LexToken::KeyOutput,
            LexToken::KeyLet,
            LexToken::KeyIf,
            LexToken::KeyMatch,
            LexToken::KeyConst,
            ident("model"),
            ident("_x"),
            ident("a1_b"),
        ]
    );
}

#[test]
fn lexes_numbers() {
    assert_eq!(
        tokenize("0 42 0x1F 0xff 0b101 9223372036854775807").unwrap(),
        vec![
            LexToken::Number(0),
            LexToken::Number(42),
            LexToken::Number(31),
            LexToken::Number(255),
            LexToken::Number(5),
            LexToken::Number(i64::MAX),
        ]
    );
    assert_eq!(tokenize("0xFFFFFFFF").unwrap(), vec![LexToken::Number(4294967295)]);
}

#[test]
fn rejects_bad_numbers() {
    assert_eq!(tokenize("9223372036854775808"), Err(CompileError::NarrowOverflow));
    assert_eq!(tokenize("0q12"), Err(CompileError::Syntax));
    assert_eq!(tokenize("0x"), Err(CompileError::Syntax));
    assert_eq!(tokenize("0xZZ"), Err(CompileError::Syntax));
    assert_eq!(tokenize("0b102"), Err(CompileError::Syntax));
}

#[test]
fn lexes_operators() {
    assert_eq!(
        tokenize("+ - * / % ** | & ^ ~ ! << >> == != > < >= <= = , ; : ? => -> ( ) { }").unwrap(),
        vec![
            LexToken::OpAdd,
            LexToken::OpSub,
            LexToken::OpMul,
            LexToken::OpDiv,
            LexToken::OpMod,
            LexToken::OpPower,
            LexToken::OpBitOr,
            LexToken::OpBitAnd,
            LexToken::OpBitXor,
            LexToken::OpBitNot,
            LexToken::OpNot,
            LexToken::OpShiftLeft,
            LexToken::OpShiftRight,
            LexToken::OpCmpEq,
            LexToken::OpCmpNeq,
            LexToken::OpCmpGt,
            LexToken::OpCmpLt,
            LexToken::OpCmpGeq,
            LexToken::OpCmpLeq,
            LexToken::OpAssign,
            LexToken::OpComma,
            LexToken::OpSemicolon,
            LexToken::OpColon,
            LexToken::OpQuestion,
            LexToken::OpMatchArrow,
            LexToken::OpThinArrow,
            LexToken::OpParenOpen,
            LexToken::OpParenClose,
            LexToken::OpBraceOpen,
            LexToken::OpBraceClose,
        ]
    );
    assert_eq!(
        tokenize("a-b->c").unwrap(),
        vec![ident("a"), LexToken::OpSub, ident("b"), LexToken::OpThinArrow, ident("c")]
    );
}

#[test]
fn skips_space_and_comments() {
    assert_eq!(
        tokenize("a // rest of the line\n\tb /* more\n lines */ c // to the end").unwrap(),
        vec![ident("a"), ident("b"), ident("c")]
    );
    assert_eq!(tokenize("").unwrap(), vec![]);
    assert_eq!(tokenize(" \n\r\t").unwrap(), vec![]);
    assert_eq!(tokenize("/**/").unwrap(), vec![]);
}

#[test]
fn rejects_what_is_no_token() {
    assert_eq!(tokenize("a # b"), Err(CompileError::Syntax));
    assert_eq!(tokenize("/* never closed"), Err(CompileError::Syntax));
    assert_eq!(tokenize("/*/"), Err(CompileError::Syntax));
    assert_eq!(tokenize("a \u{e9} b"), Err(CompileError::Syntax));
    assert_eq!(tokenize("// caf\u{e9}\n"), Err(CompileError::Syntax));
}

#[test]
fn symbols_are_names_behind_a_dollar() {
    assert_eq!(
        tokenize("$A $signal_1 $").unwrap(),
        vec![
            LexToken::Symbol("A".to_string()),
            LexToken::Symbol("signal_1".to_string()),
            LexToken::Symbol("".to_string()),
        ]
    );
}

#[test]
fn reader_gives_tokens_one_by_one() {
    let mut lexer = Lexer::new("x + 1");
    assert_eq!(lexer.next_token(), Ok(Some(ident("x"))));
    assert_eq!(lexer.next_token(), Ok(Some(LexToken::OpAdd)));
    assert_eq!(lexer.next_token(), Ok(Some(LexToken::Number(1))));
    assert_eq!(lexer.next_token(), Ok(None));
    assert_eq!(lexer.next_token(), Ok(None));
    assert_eq!(Lexer::ident_or_keyword("let"), LexToken::KeyLet);
    assert_eq!(Lexer::ident_or_keyword("lets"), ident("lets"));
}
