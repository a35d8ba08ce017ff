//! Tokens and lexical diagnostics.
//!
//! A [`Token`] is immutable once produced.  Contracts never speak of a
//! `Token` directly but of its ghost model [`TokenModel`], in which lexemes
//! are sequences of characters and integer values are unbounded.

use vstd::prelude::*;

verus! {

/// A lexical token: keywords, punctuation, and literals.
#[derive(Debug)]
pub enum Token {
    KwFn,
    KwInt,
    KwFloat,
    KwLet,
    /// `,`
    Comma,
    /// `=`
    Equal,
    /// `+`
    Plus,
    /// `-`
    Minus,
    /// `(`
    ParenL,
    /// `)`
    ParenR,
    /// `{`
    BraceL,
    /// `}`
    BraceR,
    /// `==`
    EqualEqual,
    /// `>`
    Gt,
    /// `<`
    Lt,
    /// `>=`
    GtEqual,
    /// `<=`
    LtEqual,
    /// `*`
    Star,
    /// `/`
    Slash,
    /// `+=`
    PlusEqual,
    /// `-=`
    MinusEqual,
    /// `*=`
    StarEqual,
    /// `/=`
    SlashEqual,
    /// A string literal.  Present in the data model; the scanner does not
    /// produce it, string literal syntax being unsupported.
    LitStr(String),
    /// An integer literal: its lexeme and its parsed 64-bit value.
    LitInt(String, i64),
    /// A float literal's lexeme.  Present in the data model; the scanner
    /// does not produce it, float literal syntax being unsupported.
    LitFloat(String),
    /// An identifier carrying its name.
    Identifier(String),
}

/// The mathematical model of a [`Token`].
pub enum TokenModel {
    KwFn,
    KwInt,
    KwFloat,
    KwLet,
    Comma,
    Equal,
    Plus,
    Minus,
    ParenL,
    ParenR,
    BraceL,
    BraceR,
    EqualEqual,
    Gt,
    Lt,
    GtEqual,
    LtEqual,
    Star,
    Slash,
    PlusEqual,
    MinusEqual,
    StarEqual,
    SlashEqual,
    LitStr(Seq<char>),
    LitInt(Seq<char>, int),
    LitFloat(Seq<char>),
    Identifier(Seq<char>),
}

impl View for Token {
    type V = TokenModel;

    open spec fn view(&self) -> TokenModel {
        match self {
            Token::KwFn => TokenModel::KwFn,
            Token::KwInt => TokenModel::KwInt,
            Token::KwFloat => TokenModel::KwFloat,
            Token::KwLet => TokenModel::KwLet,
            Token::Comma => TokenModel::Comma,
            Token::Equal => TokenModel::Equal,
            Token::Plus => TokenModel::Plus,
            Token::Minus => TokenModel::Minus,
            Token::ParenL => TokenModel::ParenL,
            Token::ParenR => TokenModel::ParenR,
            Token::BraceL => TokenModel::BraceL,
            Token::BraceR => TokenModel::BraceR,
            Token::EqualEqual => TokenModel::EqualEqual,
            Token::Gt => TokenModel::Gt,
            Token::Lt => TokenModel::Lt,
            Token::GtEqual => TokenModel::GtEqual,
            Token::LtEqual => TokenModel::LtEqual,
            Token::Star => TokenModel::Star,
            Token::Slash => TokenModel::Slash,
            Token::PlusEqual => TokenModel::PlusEqual,
            Token::MinusEqual => TokenModel::MinusEqual,
            Token::StarEqual => TokenModel::StarEqual,
            Token::SlashEqual => TokenModel::SlashEqual,
            Token::LitStr(s) => TokenModel::LitStr(s@),
            Token::LitInt(s, v) => TokenModel::LitInt(s@, *v as int),
            Token::LitFloat(s) => TokenModel::LitFloat(s@),
            Token::Identifier(s) => TokenModel::Identifier(s@),
        }
    }
}

impl DeepView for Token {
    type V = TokenModel;

    open spec fn deep_view(&self) -> TokenModel {
        self.view()
    }
}

/// A token that carries no lexeme of its own: a keyword or a symbol.
/// The DFA node graph stores only such tokens.
pub open spec fn is_atomic(t: Token) -> bool {
    !(t is LitStr || t is LitInt || t is LitFloat || t is Identifier)
}

impl Token {
    /// Duplicates a keyword or symbol token.
    pub fn atomic_copy(&self) -> (r: Token)
        requires
            is_atomic(*self),
        ensures
            r == *self,
    {
        match self {
            Token::KwFn => Token::KwFn,
            Token::KwInt => Token::KwInt,
            Token::KwFloat => Token::KwFloat,
            Token::KwLet => Token::KwLet,
            Token::Comma => Token::Comma,
            Token::Equal => Token::Equal,
            Token::Plus => Token::Plus,
            Token::Minus => Token::Minus,
            Token::ParenL => Token::ParenL,
            Token::ParenR => Token::ParenR,
            Token::BraceL => Token::BraceL,
            Token::BraceR => Token::BraceR,
            Token::EqualEqual => Token::EqualEqual,
            Token::Gt => Token::Gt,
            Token::Lt => Token::Lt,
            Token::GtEqual => Token::GtEqual,
            Token::LtEqual => Token::LtEqual,
            Token::Star => Token::Star,
            Token::Slash => Token::Slash,
            Token::PlusEqual => Token::PlusEqual,
            Token::MinusEqual => Token::MinusEqual,
            Token::StarEqual => Token::StarEqual,
            Token::SlashEqual => Token::SlashEqual,
            Token::LitStr(_) => {
                proof {
                    assert(false);
                }
                Token::Comma
            },
            Token::LitInt(_, _) => {
                proof {
                    assert(false);
                }
                Token::Comma
            },
            Token::LitFloat(_) => {
                proof {
                    assert(false);
                }
                Token::Comma
            },
            Token::Identifier(_) => {
                proof {
                    assert(false);
                }
                Token::Comma
            },
        }
    }
}

/// The text a token stands for: its lexeme, or the fixed spelling of a
/// keyword or symbol.
pub open spec fn token_text(m: TokenModel) -> Seq<char> {
    match m {
        TokenModel::KwFn => seq!['f', 'n'],
        TokenModel::KwInt => seq!['i', 'n', 't'],
        TokenModel::KwFloat => seq!['f', 'l', 'o', 'a', 't'],
        TokenModel::KwLet => seq!['l', 'e', 't'],
        TokenModel::Comma => seq![','],
        TokenModel::Equal => seq!['='],
        TokenModel::Plus => seq!['+'],
        TokenModel::Minus => seq!['-'],
        TokenModel::ParenL => seq!['('],
        TokenModel::ParenR => seq![')'],
        TokenModel::BraceL => seq!['{'],
        TokenModel::BraceR => seq!['}'],
        TokenModel::EqualEqual => seq!['=', '='],
        TokenModel::Gt => seq!['>'],
        TokenModel::Lt => seq!['<'],
        TokenModel::GtEqual => seq!['>', '='],
        TokenModel::LtEqual => seq!['<', '='],
        TokenModel::Star => seq!['*'],
        TokenModel::Slash => seq!['/'],
        TokenModel::PlusEqual => seq!['+', '='],
        TokenModel::MinusEqual => seq!['-', '='],
        TokenModel::StarEqual => seq!['*', '='],
        TokenModel::SlashEqual => seq!['/', '='],
        TokenModel::LitStr(s) => s,
        TokenModel::LitInt(s, _) => s,
        TokenModel::LitFloat(s) => s,
        TokenModel::Identifier(s) => s,
    }
}

impl Token {
    /// The token's text, as [`token_text`] states it.
    pub fn to_str(&self) -> (r: &str)
        ensures
            r@ == token_text(self@),
    {
        match self {
            Token::KwFn => {
                proof {
                    reveal_strlit("fn");
                    assert("fn"@ =~= seq!['f', 'n']);
                }
                "fn"
            },
            Token::KwInt => {
                proof {
                    reveal_strlit("int");
                    assert("int"@ =~= seq!['i', 'n', 't']);
                }
                "int"
            },
            Token::KwFloat => {
                proof {
                    reveal_strlit("float");
                    assert("float"@ =~= seq!['f', 'l', 'o', 'a', 't']);
                }
                "float"
            },
            Token::KwLet => {
                proof {
                    reveal_strlit("let");
                    assert("let"@ =~= seq!['l', 'e', 't']);
                }
                "let"
            },
            Token::Comma => {
                proof {
                    reveal_strlit(",");
                    assert(","@ =~= seq![',']);
                }
                ","
            },
            Token::Equal => {
                proof {
                    reveal_strlit("=");
                    assert("="@ =~= seq!['=']);
                }
                "="
            },
            Token::Plus => {
                proof {
                    reveal_strlit("+");
                    assert("+"@ =~= seq!['+']);
                }
                "+"
            },
            Token::Minus => {
                proof {
                    reveal_strlit("-");
                    assert("-"@ =~= seq!['-']);
                }
                "-"
            },
            Token::ParenL => {
                proof {
                    reveal_strlit("(");
                    assert("("@ =~= seq!['(']);
                }
                "("
            },
            Token::ParenR => {
                proof {
                    reveal_strlit(")");
                    assert(")"@ =~= seq![')']);
                }
                ")"
            },
            Token::BraceL => {
                proof {
                    reveal_strlit("{");
                    assert("{"@ =~= seq!['{']);
                }
                "{"
            },
            Token::BraceR => {
                proof {
                    reveal_strlit("}");
                    assert("}"@ =~= seq!['}']);
                }
                "}"
            },
            Token::EqualEqual => {
                proof {
                    reveal_strlit("==");
                    assert("=="@ =~= seq!['=', '=']);
                }
                "=="
            },
            Token::Gt => {
                proof {
                    reveal_strlit(">");
                    assert(">"@ =~= seq!['>']);
                }
                ">"
            },
            Token::Lt => {
                proof {
                    reveal_strlit("<");
                    assert("<"@ =~= seq!['<']);
                }
                "<"
            },
            Token::GtEqual => {
                proof {
                    reveal_strlit(">=");
                    assert(">="@ =~= seq!['>', '=']);
                }
                ">="
            },
            Token::LtEqual => {
                proof {
                    reveal_strlit("<=");
                    assert("<="@ =~= seq!['<', '=']);
                }
                "<="
            },
            Token::Star => {
                proof {
                    reveal_strlit("*");
                    assert("*"@ =~= seq!['*']);
                }
                "*"
            },
            Token::Slash => {
                proof {
                    reveal_strlit("/");
                    assert("/"@ =~= seq!['/']);
                }
                "/"
            },
            Token::PlusEqual => {
                proof {
                    reveal_strlit("+=");
                    assert("+="@ =~= seq!['+', '=']);
                }
                "+="
            },
            Token::MinusEqual => {
                proof {
                    reveal_strlit("-=");
                    assert("-="@ =~= seq!['-', '=']);
                }
                "-="
            },
            Token::StarEqual => {
                proof {
                    reveal_strlit("*=");
                    assert("*="@ =~= seq!['*', '=']);
                }
                "*="
            },
            Token::SlashEqual => {
                proof {
                    reveal_strlit("/=");
                    assert("/="@ =~= seq!['/', '=']);
                }
                "/="
            },
            Token::LitStr(s) => s.as_str(),
            Token::LitInt(s, _) => s.as_str(),
            Token::LitFloat(s) => s.as_str(),
            Token::Identifier(s) => s.as_str(),
        }
    }
}

/// A lexical diagnostic.  Diagnostics are local: each abandons at most the
/// token being scanned, and scanning resumes at the next dispatch.
#[derive(Debug)]
pub enum LexDiag {
    /// A character that neither continues the token being scanned nor
    /// delimits it, or that no token may start with.
    UnexpectedChar(char),
    /// A literal form the language reserves but does not implement: a
    /// float continuation `.`, a hex `x` or binary `b` after digits, or
    /// a string quote `"`; carries the character that marked the form.
    UnsupportedLiteral(char),
    /// A numeric literal whose value does not fit a 64-bit integer;
    /// carries the offending lexeme.
    NumericParseError(String),
}

/// The mathematical model of a [`LexDiag`].
pub enum DiagModel {
    UnexpectedChar(char),
    UnsupportedLiteral(char),
    NumericParseError(Seq<char>),
}

impl View for LexDiag {
    type V = DiagModel;

    open spec fn view(&self) -> DiagModel {
        match self {
            LexDiag::UnexpectedChar(c) => DiagModel::UnexpectedChar(*c),
            LexDiag::UnsupportedLiteral(c) => DiagModel::UnsupportedLiteral(*c),
            LexDiag::NumericParseError(s) => DiagModel::NumericParseError(s@),
        }
    }
}

impl DeepView for LexDiag {
    type V = DiagModel;

    open spec fn deep_view(&self) -> DiagModel {
        self.view()
    }
}

} // verus!
