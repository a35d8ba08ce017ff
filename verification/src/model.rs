//! The specification-level tokenizer.
//!
//! [`lex_spec`] says, for any input, exactly which tokens and which
//! diagnostics the lexer produces, as a small mutually recursive machine:
//! one function per scanning mode, one character consumed per step.  The
//! executable driver in [`crate::lexer`] is proved against it.

use vstd::prelude::*;

use crate::classify::{
    class_of, is_delimiter_char, is_digit, is_letter, is_multi_start, is_num_continuation,
    is_single_symbol, is_space_char, is_unsupported_start, CharClass,
};
use crate::token::{DiagModel, TokenModel};

verus! {

/// Everything one lexing pass produces: the token sequence and the
/// diagnostics, in order.
#[verifier::ext_equal]
pub struct LexOut {
    pub toks: Seq<TokenModel>,
    pub diags: Seq<DiagModel>,
}

/// The outcome with nothing produced.
pub open spec fn empty_out() -> LexOut {
    LexOut { toks: Seq::empty(), diags: Seq::empty() }
}

/// Prepends one token to an outcome.
pub open spec fn prepend_tok(t: TokenModel, o: LexOut) -> LexOut {
    LexOut { toks: seq![t] + o.toks, diags: o.diags }
}

/// Prepends one diagnostic to an outcome.
pub open spec fn prepend_diag(d: DiagModel, o: LexOut) -> LexOut {
    LexOut { toks: o.toks, diags: seq![d] + o.diags }
}

/// Concatenates two outcomes.
pub open spec fn combine(a: LexOut, b: LexOut) -> LexOut {
    LexOut { toks: a.toks + b.toks, diags: a.diags + b.diags }
}

/// The numeric value of a digit character.
pub open spec fn digit_val(c: char) -> int {
    c as u32 - '0' as u32
}

/// The base-10 value of a digit sequence.
pub open spec fn digits_value(s: Seq<char>) -> int
    decreases s.len(),
{
    if s.len() == 0 {
        0
    } else {
        digits_value(s.drop_last()) * 10 + digit_val(s.last())
    }
}

/// The keyword a word spells, if any.
pub open spec fn kw_token(w: Seq<char>) -> Option<TokenModel> {
    if w == seq!['f', 'n'] {
        Some(TokenModel::KwFn)
    } else if w == seq!['i', 'n', 't'] {
        Some(TokenModel::KwInt)
    } else if w == seq!['f', 'l', 'o', 'a', 't'] {
        Some(TokenModel::KwFloat)
    } else if w == seq!['l', 'e', 't'] {
        Some(TokenModel::KwLet)
    } else {
        None
    }
}

/// Whether a word is a prefix (not necessarily proper) of some keyword.
pub open spec fn is_kw_prefix(w: Seq<char>) -> bool {
    w.is_prefix_of(seq!['f', 'n']) || w.is_prefix_of(seq!['i', 'n', 't']) || w.is_prefix_of(
        seq!['f', 'l', 'o', 'a', 't'],
    ) || w.is_prefix_of(seq!['l', 'e', 't'])
}

/// The token a completed word yields: its keyword, or an identifier
/// carrying the word as its name.
pub open spec fn word_token(w: Seq<char>) -> TokenModel {
    match kw_token(w) {
        Some(t) => t,
        None => TokenModel::Identifier(w),
    }
}

/// The single-character token of a symbol.
pub open spec fn single_symbol_token(c: char) -> TokenModel {
    if c == ',' {
        TokenModel::Comma
    } else if c == '(' {
        TokenModel::ParenL
    } else if c == ')' {
        TokenModel::ParenR
    } else if c == '{' {
        TokenModel::BraceL
    } else if c == '}' {
        TokenModel::BraceR
    } else if c == '=' {
        TokenModel::Equal
    } else if c == '>' {
        TokenModel::Gt
    } else if c == '<' {
        TokenModel::Lt
    } else if c == '+' {
        TokenModel::Plus
    } else if c == '-' {
        TokenModel::Minus
    } else if c == '*' {
        TokenModel::Star
    } else if c == '/' {
        TokenModel::Slash
    } else {
        arbitrary()
    }
}

/// The two-character token a symbol extends to when followed by `=`.
pub open spec fn compound_symbol_token(c: char) -> TokenModel {
    if c == '=' {
        TokenModel::EqualEqual
    } else if c == '>' {
        TokenModel::GtEqual
    } else if c == '<' {
        TokenModel::LtEqual
    } else if c == '+' {
        TokenModel::PlusEqual
    } else if c == '-' {
        TokenModel::MinusEqual
    } else if c == '*' {
        TokenModel::StarEqual
    } else if c == '/' {
        TokenModel::SlashEqual
    } else {
        arbitrary()
    }
}

/// The diagnostic for a character no token may start with.
pub open spec fn start_diag(c: char) -> DiagModel {
    if is_unsupported_start(c) {
        DiagModel::UnsupportedLiteral(c)
    } else {
        DiagModel::UnexpectedChar(c)
    }
}

/// What a completed numeric lexeme contributes: its integer token, or a
/// parse diagnostic when its value does not fit a 64-bit integer.
pub open spec fn num_out(w: Seq<char>, rest: LexOut) -> LexOut {
    if digits_value(w) <= i64::MAX {
        prepend_tok(TokenModel::LitInt(w, digits_value(w)), rest)
    } else {
        prepend_diag(DiagModel::NumericParseError(w), rest)
    }
}

/// Top-level dispatch: `s` is what remains of the input.
pub open spec fn lex_spec(s: Seq<char>) -> LexOut
    decreases s.len(), 0int,
{
    if s.len() == 0 {
        empty_out()
    } else {
        let c = s[0];
        if is_space_char(c) {
            lex_spec(s.drop_first())
        } else if is_single_symbol(c) {
            prepend_tok(single_symbol_token(c), lex_spec(s.drop_first()))
        } else if is_multi_start(c) {
            sym_spec(s.drop_first(), c)
        } else if is_letter(c) {
            ident_spec(s.drop_first(), seq![c])
        } else if is_digit(c) {
            num_spec(s.drop_first(), seq![c])
        } else {
            prepend_diag(start_diag(c), lex_spec(s.drop_first()))
        }
    }
}

/// After a multi-character symbol start `c`: one character of lookahead
/// decides between the compound token and the single token; a lookahead
/// that does not extend the symbol is re-dispatched, not dropped.
pub open spec fn sym_spec(s: Seq<char>, c: char) -> LexOut
    decreases s.len(), 1int,
{
    if s.len() > 0 && s[0] == '=' {
        prepend_tok(compound_symbol_token(c), lex_spec(s.drop_first()))
    } else {
        prepend_tok(single_symbol_token(c), lex_spec(s))
    }
}

/// Scanning an identifier or keyword: `w` is the accumulated word (never
/// empty).  A letter continues it; end of input or a delimiter completes
/// it, the delimiter being re-dispatched; any other character is a local
/// diagnostic that abandons the word.
pub open spec fn ident_spec(s: Seq<char>, w: Seq<char>) -> LexOut
    decreases s.len(), 1int,
{
    if s.len() == 0 {
        prepend_tok(word_token(w), empty_out())
    } else if is_letter(s[0]) {
        ident_spec(s.drop_first(), w.push(s[0]))
    } else if is_delimiter_char(s[0]) {
        prepend_tok(word_token(w), lex_spec(s))
    } else {
        prepend_diag(DiagModel::UnexpectedChar(s[0]), lex_spec(s.drop_first()))
    }
}

/// Scanning a numeric literal: `w` is the accumulated lexeme (never
/// empty).  A digit continues it; a float, hex or binary continuation
/// character surfaces the whole run as an unsupported literal form —
/// never as a plain integer — and the rest of the malformed literal is
/// skipped; any other character completes the integer and is
/// re-dispatched.
pub open spec fn num_spec(s: Seq<char>, w: Seq<char>) -> LexOut
    decreases s.len(), 1int,
{
    if s.len() == 0 {
        num_out(w, empty_out())
    } else if is_digit(s[0]) {
        num_spec(s.drop_first(), w.push(s[0]))
    } else if is_num_continuation(s[0]) {
        prepend_diag(DiagModel::UnsupportedLiteral(s[0]), junk_spec(s.drop_first()))
    } else {
        num_out(w, lex_spec(s))
    }
}

/// Recovery after an unsupported literal form: the rest of the
/// malformed run — letters and digits — is consumed without tokens, and
/// scanning resumes at the first character past it.
pub open spec fn junk_spec(s: Seq<char>) -> LexOut
    decreases s.len(), 1int,
{
    if s.len() > 0 && (is_letter(s[0]) || is_digit(s[0])) {
        junk_spec(s.drop_first())
    } else {
        lex_spec(s)
    }
}

/// The empty outcome is a unit for concatenation.
pub proof fn lemma_combine_empty(a: LexOut)
    ensures
        combine(a, empty_out()) == a,
        combine(empty_out(), a) == a,
{
    assert(combine(a, empty_out()) =~= a);
    assert(combine(empty_out(), a) =~= a);
}

/// Appending a token on the left matches prepending it on the right.
pub proof fn lemma_combine_push_tok(o: LexOut, t: TokenModel, rest: LexOut)
    ensures
        combine(LexOut { toks: o.toks.push(t), diags: o.diags }, rest) == combine(
            o,
            prepend_tok(t, rest),
        ),
{
    assert(combine(LexOut { toks: o.toks.push(t), diags: o.diags }, rest) =~= combine(
        o,
        prepend_tok(t, rest),
    ));
}

/// Appending a diagnostic on the left matches prepending it on the right.
pub proof fn lemma_combine_push_diag(o: LexOut, d: DiagModel, rest: LexOut)
    ensures
        combine(LexOut { toks: o.toks, diags: o.diags.push(d) }, rest) == combine(
            o,
            prepend_diag(d, rest),
        ),
{
    assert(combine(LexOut { toks: o.toks, diags: o.diags.push(d) }, rest) =~= combine(
        o,
        prepend_diag(d, rest),
    ));
}

/// Top-level dispatch of one already-consumed character `c`, with `s`
/// the input that follows it: what the lexer owes from that state on.
pub open spec fn dispatch_spec(c: char, s: Seq<char>) -> LexOut {
    if class_of(c) == CharClass::MultiCharSymbol {
        sym_spec(s, c)
    } else if class_of(c) == CharClass::IdentifierOrKeyword {
        ident_spec(s, seq![c])
    } else if class_of(c) == CharClass::NumericDigit {
        num_spec(s, seq![c])
    } else {
        prepend_diag(start_diag(c), lex_spec(s))
    }
}

/// The value of a digit sequence is never negative.
pub proof fn lemma_digits_value_nonneg(w: Seq<char>)
    requires
        forall|j: int| 0 <= j < w.len() ==> is_digit(#[trigger] w[j]),
    ensures
        digits_value(w) >= 0,
    decreases w.len(),
{
    if w.len() > 0 {
        lemma_digits_value_nonneg(w.drop_last());
    }
}

/// Appending one digit multiplies the value by ten and adds the digit.
pub proof fn lemma_digits_value_push(w: Seq<char>, c: char)
    ensures
        digits_value(w.push(c)) == digits_value(w) * 10 + digit_val(c),
{
    assert(w.push(c).drop_last() =~= w);
    assert(w.push(c).last() == c);
}

/// A digit sequence is worth at least any of its prefixes.
pub proof fn lemma_digits_value_extend(w: Seq<char>, k: int)
    requires
        0 <= k <= w.len(),
        forall|j: int| 0 <= j < w.len() ==> is_digit(#[trigger] w[j]),
    ensures
        digits_value(w) >= digits_value(w.take(k)),
    decreases w.len() - k,
{
    if k == w.len() {
        assert(w.take(k) =~= w);
    } else {
        lemma_digits_value_extend(w, k + 1);
        assert(w.take(k + 1).drop_last() =~= w.take(k));
        assert(w.take(k + 1).last() == w[k]);
        lemma_digits_value_nonneg(w.take(k));
        assert(digit_val(w[k]) >= 0);
        assert(digits_value(w.take(k + 1)) == digits_value(w.take(k)) * 10 + digit_val(w[k]));
        assert(digits_value(w.take(k)) * 10 >= digits_value(w.take(k))) by {
            lemma_digits_value_nonneg(w.take(k));
        }
    }
}

/// Scanning past a run of letters only grows the accumulated word: the
/// identifier machine's outcome is unchanged.
pub proof fn lemma_ident_spec_letters(s: Seq<char>, w: Seq<char>, n: int)
    requires
        0 <= n <= s.len(),
        forall|j: int| 0 <= j < n ==> is_letter(#[trigger] s[j]),
    ensures
        ident_spec(s, w) == ident_spec(s.skip(n), w + s.take(n)),
    decreases n,
{
    if n == 0 {
        assert(s.skip(0) =~= s);
        assert(w + s.take(0) =~= w);
    } else {
        assert(is_letter(s[0]));
        assert(ident_spec(s, w) == ident_spec(s.drop_first(), w.push(s[0])));
        lemma_ident_spec_letters(s.drop_first(), w.push(s[0]), n - 1);
        assert(s.drop_first().skip(n - 1) =~= s.skip(n));
        assert(w.push(s[0]) + s.drop_first().take(n - 1) =~= w + s.take(n));
    }
}

/// Scanning past a run of digits only grows the accumulated lexeme: the
/// number machine's outcome is unchanged.
pub proof fn lemma_num_spec_digits(s: Seq<char>, w: Seq<char>, n: int)
    requires
        0 <= n <= s.len(),
        forall|j: int| 0 <= j < n ==> is_digit(#[trigger] s[j]),
    ensures
        num_spec(s, w) == num_spec(s.skip(n), w + s.take(n)),
    decreases n,
{
    if n == 0 {
        assert(s.skip(0) =~= s);
        assert(w + s.take(0) =~= w);
    } else {
        assert(is_digit(s[0]));
        assert(num_spec(s, w) == num_spec(s.drop_first(), w.push(s[0])));
        lemma_num_spec_digits(s.drop_first(), w.push(s[0]), n - 1);
        assert(s.drop_first().skip(n - 1) =~= s.skip(n));
        assert(w.push(s[0]) + s.drop_first().take(n - 1) =~= w + s.take(n));
    }
}

/// Skipping past a run of letters and digits leaves the recovery
/// machine's outcome unchanged.
pub proof fn lemma_junk_spec_run(s: Seq<char>, n: int)
    requires
        0 <= n <= s.len(),
        forall|j: int| 0 <= j < n ==> is_letter(#[trigger] s[j]) || is_digit(s[j]),
    ensures
        junk_spec(s) == junk_spec(s.skip(n)),
    decreases n,
{
    if n == 0 {
        assert(s.skip(0) =~= s);
    } else {
        assert(is_letter(s[0]) || is_digit(s[0]));
        assert(junk_spec(s) == junk_spec(s.drop_first()));
        lemma_junk_spec_run(s.drop_first(), n - 1);
        assert(s.drop_first().skip(n - 1) =~= s.skip(n));
    }
}

/// A word that has left every keyword path can never complete to a
/// keyword: its token is an identifier.
pub proof fn lemma_not_kw_prefix_word(p: Seq<char>, w: Seq<char>)
    requires
        !is_kw_prefix(p),
        p.is_prefix_of(w),
    ensures
        kw_token(w) is None,
{
    if kw_token(w) is Some {
        assert(is_kw_prefix(w));
        assert(is_kw_prefix(p));
    }
}

} // verus!
