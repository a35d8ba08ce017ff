use roc_lexer::lexer::{tokenize, Lexer};
use roc_lexer::token::{LexDiag, Token};

fn toks(input: &str) -> Vec<Token> {
    let (t, d) = tokenize(input);
    assert!(d.is_empty(), "unexpected diagnostics: {:?}", d);
    t
}

#[test]
fn empty_input_yields_nothing() {
    let (t, d) = tokenize("");
    assert!(t.is_empty());
    assert!(d.is_empty());
}

#[test]
fn whitespace_only_yields_nothing() {
    let (t, d) = tokenize("  \n\t \r\n");
    assert!(t.is_empty());
    assert!(d.is_empty());
}

#[test]
fn single_char_symbols_in_isolation() {
    assert!(matches!(toks("(")[..], [Token::ParenL]));
    assert!(matches!(toks(")")[..], [Token::ParenR]));
    assert!(matches!(toks("{")[..], [Token::BraceL]));
    assert!(matches!(toks("}")[..], [Token::BraceR]));
    assert!(matches!(toks(",")[..], [Token::Comma]));
}

#[test]
fn compound_symbols_never_split() {
    assert!(matches!(toks("==")[..], [Token::EqualEqual]));
    assert!(matches!(toks(">=")[..], [Token::GtEqual]));
    assert!(matches!(toks("<=")[..], [Token::LtEqual]));
    assert!(matches!(toks("+=")[..], [Token::PlusEqual]));
    assert!(matches!(toks("-=")[..], [Token::MinusEqual]));
    assert!(matches!(toks("*=")[..], [Token::StarEqual]));
    assert!(matches!(toks("/=")[..], [Token::SlashEqual]));
}

#[test]
fn symbol_prefix_with_non_extending_input() {
    assert!(matches!(toks("=")[..], [Token::Equal]));
    assert!(matches!(toks(">")[..], [Token::Gt]));
    assert!(matches!(toks("<")[..], [Token::Lt]));
    assert!(matches!(toks("+")[..], [Token::Plus]));
    assert!(matches!(toks("-")[..], [Token::Minus]));
    assert!(matches!(toks("*")[..], [Token::Star]));
    assert!(matches!(toks("/")[..], [Token::Slash]));
    // the non-extending lookahead is re-dispatched, not dropped
    assert!(matches!(toks("=(")[..], [Token::Equal, Token::ParenL]));
    assert!(matches!(toks("+ +")[..], [Token::Plus, Token::Plus]));
}

#[test]
fn keywords_lex_to_keyword_tokens() {
    assert!(matches!(toks("fn")[..], [Token::KwFn]));
    assert!(matches!(toks("int")[..], [Token::KwInt]));
    assert!(matches!(toks("float")[..], [Token::KwFloat]));
    assert!(matches!(toks("let")[..], [Token::KwLet]));
}

#[test]
fn keyword_needs_delimiter_to_end() {
    // `let` alone is the keyword
    assert!(matches!(toks("let")[..], [Token::KwLet]));
    // `letx` is one identifier, never KwLet followed by `x`
    let t = toks("letx");
    assert_eq!(t.len(), 1);
    assert!(matches!(&t[0], Token::Identifier(n) if n == "letx"));
}

#[test]
fn keyword_prefix_is_an_identifier() {
    let t = toks("le ");
    assert_eq!(t.len(), 1);
    assert!(matches!(&t[0], Token::Identifier(n) if n == "le"));
    let t2 = toks("in");
    assert!(matches!(&t2[0], Token::Identifier(n) if n == "in"));
}

#[test]
fn identifier_round_trip_stores_source_text() {
    let t = toks("alpha beta");
    assert_eq!(t.len(), 2);
    assert!(matches!(&t[0], Token::Identifier(n) if n == "alpha"));
    assert!(matches!(&t[1], Token::Identifier(n) if n == "beta"));
    assert_eq!(t[0].to_str(), "alpha");
}

#[test]
fn integer_literal_keeps_lexeme_and_value() {
    let t = toks("123");
    assert_eq!(t.len(), 1);
    assert!(matches!(&t[0], Token::LitInt(lex, v) if lex == "123" && *v == 123));
}

#[test]
fn integer_literal_terminated_by_letter() {
    let t = toks("123abc");
    assert_eq!(t.len(), 2);
    assert!(matches!(&t[0], Token::LitInt(lex, v) if lex == "123" && *v == 123));
    assert!(matches!(&t[1], Token::Identifier(n) if n == "abc"));
}

#[test]
fn largest_integer_parses() {
    let t = toks("9223372036854775807");
    assert!(matches!(&t[0], Token::LitInt(_, v) if *v == i64::MAX));
}

#[test]
fn integer_overflow_is_reported_not_crashed() {
    let (t, d) = tokenize("9223372036854775808");
    assert!(t.is_empty());
    assert_eq!(d.len(), 1);
    assert!(matches!(&d[0], LexDiag::NumericParseError(lex) if lex == "9223372036854775808"));
}

#[test]
fn unexpected_char_is_reported_and_skipped() {
    let (t, d) = tokenize("$ ,");
    assert_eq!(d.len(), 1);
    assert!(matches!(&d[0], LexDiag::UnexpectedChar('$')));
    assert!(matches!(t[..], [Token::Comma]));
}

#[test]
fn unexpected_char_mid_identifier_abandons_token() {
    let (t, d) = tokenize("ab9");
    assert!(t.is_empty());
    assert_eq!(d.len(), 1);
    assert!(matches!(&d[0], LexDiag::UnexpectedChar('9')));
    // scanning resumes after the offending character
    let (t2, d2) = tokenize("ab9z");
    assert_eq!(d2.len(), 1);
    assert!(matches!(&t2[..], [Token::Identifier(n)] if n == "z"));
}

#[test]
fn unsupported_literal_forms_are_surfaced() {
    let (_, d) = tokenize("\"text\"");
    assert!(matches!(&d[0], LexDiag::UnsupportedLiteral('"')));
    // a float literal is surfaced whole, never as integer tokens
    let (t, d2) = tokenize("1.5");
    assert!(t.is_empty());
    assert!(matches!(&d2[..], [LexDiag::UnsupportedLiteral('.')]));
    let (t3, d3) = tokenize("1.");
    assert!(t3.is_empty());
    assert!(matches!(&d3[..], [LexDiag::UnsupportedLiteral('.')]));
}

#[test]
fn hex_and_binary_literals_are_surfaced_not_misread() {
    let (t, d) = tokenize("0x10");
    assert!(t.is_empty());
    assert!(matches!(&d[..], [LexDiag::UnsupportedLiteral('x')]));
    let (t2, d2) = tokenize("0b1");
    assert!(t2.is_empty());
    assert!(matches!(&d2[..], [LexDiag::UnsupportedLiteral('b')]));
    let (t3, d3) = tokenize("1x");
    assert!(t3.is_empty());
    assert!(matches!(&d3[..], [LexDiag::UnsupportedLiteral('x')]));
    // scanning resumes cleanly past the malformed literal
    let (t4, d4) = tokenize("0x10, 7");
    assert!(matches!(&d4[..], [LexDiag::UnsupportedLiteral('x')]));
    assert!(matches!(&t4[..], [Token::Comma, Token::LitInt(lex, 7)] if lex == "7"));
}

#[test]
fn non_ascii_char_is_reported() {
    let (t, d) = tokenize("\u{e9}");
    assert!(t.is_empty());
    assert_eq!(d.len(), 1);
    assert!(matches!(&d[0], LexDiag::UnexpectedChar('\u{e9}')));
}

#[test]
fn compound_assignment_expression() {
    let t = toks("a+=b");
    assert_eq!(t.len(), 3);
    assert!(matches!(&t[0], Token::Identifier(n) if n == "a"));
    assert!(matches!(t[1], Token::PlusEqual));
    assert!(matches!(&t[2], Token::Identifier(n) if n == "b"));
}

#[test]
fn classifier_built_twice_is_equivalent() {
    let a = roc_lexer::dfa::DfaTable::build();
    let b = roc_lexer::dfa::DfaTable::build();
    assert_eq!(a.nodes.len(), b.nodes.len());
    for i in 0..128 {
        assert_eq!(a.nodes[i].node_type, b.nodes[i].node_type);
        assert_eq!(a.nodes[i].ident, b.nodes[i].ident);
        assert_eq!(a.nodes[i].num_int, b.nodes[i].num_int);
        assert_eq!(a.nodes[i].is_delimit, b.nodes[i].is_delimit);
    }
}

#[test]
fn end_to_end_function_definition() {
    let t = toks("fn add(a int, b int) int { a + b }");
    assert_eq!(t.len(), 15);
    assert!(matches!(t[0], Token::KwFn));
    assert!(matches!(&t[1], Token::Identifier(n) if n == "add"));
    assert!(matches!(t[2], Token::ParenL));
    assert!(matches!(&t[3], Token::Identifier(n) if n == "a"));
    assert!(matches!(t[4], Token::KwInt));
    assert!(matches!(t[5], Token::Comma));
    assert!(matches!(&t[6], Token::Identifier(n) if n == "b"));
    assert!(matches!(t[7], Token::KwInt));
    assert!(matches!(t[8], Token::ParenR));
    assert!(matches!(t[9], Token::KwInt));
    assert!(matches!(t[10], Token::BraceL));
    assert!(matches!(&t[11], Token::Identifier(n) if n == "a"));
    assert!(matches!(t[12], Token::Plus));
    assert!(matches!(&t[13], Token::Identifier(n) if n == "b"));
    assert!(matches!(t[14], Token::BraceR));
}

#[test]
fn lexer_session_exposes_tokens() {
    let mut lx = Lexer::new("let x = 3");
    lx.lex();
    assert_eq!(lx.tokens.len(), 4);
    assert!(matches!(lx.tokens[0], Token::KwLet));
    assert!(matches!(&lx.tokens[1], Token::Identifier(n) if n == "x"));
    assert!(matches!(lx.tokens[2], Token::Equal));
    assert!(matches!(&lx.tokens[3], Token::LitInt(lex, 3) if lex == "3"));
    assert!(lx.diags.is_empty());
}

#[test]
fn to_str_spells_tokens() {
    assert_eq!(Token::KwLet.to_str(), "let");
    assert_eq!(Token::KwFn.to_str(), "fn");
    assert_eq!(Token::MinusEqual.to_str(), "-=");
    assert_eq!(Token::EqualEqual.to_str(), "==");
    assert_eq!(Token::Comma.to_str(), ",");
    assert_eq!(Token::LitInt(String::from("42"), 42).to_str(), "42");
    assert_eq!(Token::Identifier(String::from("abc")).to_str(), "abc");
}

#[test]
fn keyword_path_exit_to_identifier() {
    let t = toks("fnx");
    assert!(matches!(&t[..], [Token::Identifier(n)] if n == "fnx"));
    let t2 = toks("floats");
    assert!(matches!(&t2[..], [Token::Identifier(n)] if n == "floats"));
}

#[test]
fn digit_after_keyword_path_is_reported() {
    let (t, d) = tokenize("int5");
    assert!(t.is_empty());
    assert!(matches!(&d[..], [LexDiag::UnexpectedChar('5')]));
}

#[test]
fn keyword_before_delimiter_flushes() {
    let t = toks("let x");
    assert_eq!(t.len(), 2);
    assert!(matches!(t[0], Token::KwLet));
    assert!(matches!(&t[1], Token::Identifier(n) if n == "x"));
    let t2 = toks("fn(");
    assert!(matches!(&t2[..], [Token::KwFn, Token::ParenL]));
}
