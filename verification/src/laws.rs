//! Laws of the tokenizer, stated against [`lex_spec`] and proved once
//! for all inputs.

use vstd::prelude::*;

use crate::classify::{
    is_delimiter_char, is_digit, is_letter, is_multi_start, is_num_continuation,
    is_single_symbol, is_space_char,
};
use crate::dfa::{root_fields, DfaTable};
use crate::model::{
    compound_symbol_token, empty_out, ident_spec, junk_spec, lex_spec, num_spec, prepend_tok,
    single_symbol_token, sym_spec, word_token, LexOut,
};
verus! {

/// Lexing a single-character symbol in isolation yields exactly its one
/// token and no diagnostic.
pub proof fn lemma_single_symbol_isolated(c: char)
    requires
        is_single_symbol(c),
    ensures
        lex_spec(seq![c]) == (LexOut {
            toks: seq![single_symbol_token(c)],
            diags: Seq::<crate::token::DiagModel>::empty(),
        }),
{
    let s = seq![c];
    assert(s.drop_first() =~= Seq::<char>::empty());
    assert(lex_spec(Seq::<char>::empty()) == empty_out());
    assert(!is_space_char(c));
    assert(lex_spec(s) == prepend_tok(single_symbol_token(c), lex_spec(s.drop_first())));
    assert(lex_spec(s) =~= LexOut {
        toks: seq![single_symbol_token(c)],
        diags: Seq::<crate::token::DiagModel>::empty(),
    });
}

/// A full two-character symbol yields its one compound token, never two
/// single-character tokens.
pub proof fn lemma_compound_symbol(c: char)
    requires
        is_multi_start(c),
    ensures
        lex_spec(seq![c, '=']) == (LexOut {
            toks: seq![compound_symbol_token(c)],
            diags: Seq::<crate::token::DiagModel>::empty(),
        }),
{
    let s = seq![c, '='];
    assert(s.drop_first() =~= seq!['=']);
    assert(s.drop_first().drop_first() =~= Seq::<char>::empty());
    assert(!is_space_char(c) && !is_single_symbol(c));
    assert(lex_spec(s) == sym_spec(seq!['='], c));
    assert(sym_spec(seq!['='], c) == prepend_tok(
        compound_symbol_token(c),
        lex_spec(seq!['='].drop_first()),
    ));
    assert(lex_spec(s) =~= LexOut {
        toks: seq![compound_symbol_token(c)],
        diags: Seq::<crate::token::DiagModel>::empty(),
    });
}

/// A multi-character symbol start followed by anything that does not
/// extend it yields the single-character token, and the rest of the
/// input is lexed on its own: the lookahead is never dropped.
pub proof fn lemma_symbol_prefix(c: char, rest: Seq<char>)
    requires
        is_multi_start(c),
        rest.len() == 0 || rest[0] != '=',
    ensures
        lex_spec(seq![c] + rest) == prepend_tok(single_symbol_token(c), lex_spec(rest)),
{
    let s = seq![c] + rest;
    assert(s[0] == c);
    assert(s.drop_first() =~= rest);
    assert(!is_space_char(c) && !is_single_symbol(c));
    assert(lex_spec(s) == sym_spec(rest, c));
    assert(sym_spec(rest, c) == prepend_tok(single_symbol_token(c), lex_spec(rest)));
}

/// An empty input yields an empty token sequence and no diagnostic.
pub proof fn lemma_empty_input()
    ensures
        lex_spec(Seq::<char>::empty()) == empty_out(),
{
}

/// Two built tables classify every character alike.
pub proof fn lemma_classifier_deterministic(t1: DfaTable, t2: DfaTable)
    ensures
        t1.built() && t2.built() ==> forall|c: char|
            0 <= (c as int) && (c as int) < 128 ==> #[trigger] t1.nodes@[c as int].node_type
                == t2.nodes@[c as int].node_type,
{
    if t1.built() && t2.built() {
        assert forall|c: char|
            0 <= (c as int) && (c as int) < 128 implies #[trigger] t1.nodes@[c as int].node_type
            == t2.nodes@[c as int].node_type by {
            assert(root_fields(t1.nodes@, c));
            assert(root_fields(t2.nodes@, c));
        }
    }
}

/// Whether `name` occurs in `s` as a contiguous substring.
pub open spec fn occurs_in(name: Seq<char>, s: Seq<char>) -> bool {
    exists|i: int|
        0 <= i && i + name.len() <= s.len() && (#[trigger] s.subrange(i, i + name.len())) == name
}

/// An occurrence survives prepending input before it.
proof fn lemma_occurs_extend(name: Seq<char>, pre: Seq<char>, s: Seq<char>)
    requires
        occurs_in(name, s),
    ensures
        occurs_in(name, pre + s),
{
    let i = choose|i: int|
        0 <= i && i + name.len() <= s.len() && (#[trigger] s.subrange(i, i + name.len())) == name;
    let j = pre.len() + i;
    assert((pre + s).subrange(j, j + name.len()) =~= s.subrange(i, i + name.len()));
    assert(0 <= j && j + name.len() <= (pre + s).len() && (pre + s).subrange(j, j + name.len())
        == name);
}

/// The word standing at the front of `s` occurs in `s`.
proof fn lemma_occurs_here(name: Seq<char>, s: Seq<char>)
    requires
        name.len() <= s.len(),
        s.subrange(0, name.len() as int) == name,
    ensures
        occurs_in(name, s),
{
    let i: int = 0;
    assert(s.subrange(i, i + name.len()) =~= s.subrange(0, name.len() as int));
    assert(0 <= i && i + name.len() <= s.len() && s.subrange(i, i + name.len()) == name);
}

/// An occurrence in the tail of `s` is an occurrence in `s`.
proof fn lemma_occurs_tail(name: Seq<char>, s: Seq<char>)
    requires
        s.len() > 0,
        occurs_in(name, s.drop_first()),
    ensures
        occurs_in(name, s),
{
    lemma_occurs_extend(name, seq![s[0]], s.drop_first());
    assert(seq![s[0]] + s.drop_first() =~= s);
}

/// Round-trip at the top level: the name stored in any identifier token
/// stands in the input as a contiguous substring.
pub proof fn lemma_identifier_round_trip(s: Seq<char>, k: int)
    requires
        0 <= k < lex_spec(s).toks.len(),
        lex_spec(s).toks[k] is Identifier,
    ensures
        occurs_in(lex_spec(s).toks[k]->Identifier_0, s),
    decreases s.len(), 0int,
{
    if s.len() == 0 {
    } else {
        let c = s[0];
        let tl = s.drop_first();
        if is_space_char(c) {
            lemma_identifier_round_trip(tl, k);
            lemma_occurs_tail(lex_spec(s).toks[k]->Identifier_0, s);
        } else if is_single_symbol(c) {
            if k > 0 {
                assert(lex_spec(s).toks[k] == lex_spec(tl).toks[k - 1]);
                lemma_identifier_round_trip(tl, k - 1);
                lemma_occurs_tail(lex_spec(s).toks[k]->Identifier_0, s);
            }
        } else if is_multi_start(c) {
            lemma_rt_sym(tl, c, k);
            lemma_occurs_tail(lex_spec(s).toks[k]->Identifier_0, s);
        } else if is_letter(c) {
            lemma_rt_ident(tl, seq![c], k);
            assert(seq![c] + tl =~= s);
        } else if is_digit(c) {
            lemma_rt_num(tl, seq![c], k);
            lemma_occurs_tail(lex_spec(s).toks[k]->Identifier_0, s);
        } else {
            lemma_identifier_round_trip(tl, k);
            lemma_occurs_tail(lex_spec(s).toks[k]->Identifier_0, s);
        }
    }
}

/// Round-trip through the symbol lookahead state.
proof fn lemma_rt_sym(s: Seq<char>, c: char, k: int)
    requires
        is_multi_start(c),
        0 <= k < sym_spec(s, c).toks.len(),
        sym_spec(s, c).toks[k] is Identifier,
    ensures
        occurs_in(sym_spec(s, c).toks[k]->Identifier_0, s),
    decreases s.len(), 1int,
{
    if s.len() > 0 && s[0] == '=' {
        if k > 0 {
            assert(sym_spec(s, c).toks[k] == lex_spec(s.drop_first()).toks[k - 1]);
            lemma_identifier_round_trip(s.drop_first(), k - 1);
            lemma_occurs_tail(sym_spec(s, c).toks[k]->Identifier_0, s);
        }
    } else {
        if k > 0 {
            assert(sym_spec(s, c).toks[k] == lex_spec(s).toks[k - 1]);
            lemma_identifier_round_trip(s, k - 1);
        }
    }
}

/// Round-trip through the identifier state: the name occurs in the
/// accumulated word followed by the rest of the input.
proof fn lemma_rt_ident(s: Seq<char>, w: Seq<char>, k: int)
    requires
        0 <= k < ident_spec(s, w).toks.len(),
        ident_spec(s, w).toks[k] is Identifier,
    ensures
        occurs_in(ident_spec(s, w).toks[k]->Identifier_0, w + s),
    decreases s.len(), 1int,
{
    if s.len() == 0 {
        assert(k == 0);
        assert(ident_spec(s, w).toks[0] == word_token(w));
        let name = ident_spec(s, w).toks[0]->Identifier_0;
        assert(name == w);
        assert((w + s).subrange(0, name.len() as int) =~= w);
        lemma_occurs_here(name, w + s);
    } else if is_letter(s[0]) {
        lemma_rt_ident(s.drop_first(), w.push(s[0]), k);
        assert(w.push(s[0]) + s.drop_first() =~= w + s);
    } else if is_delimiter_char(s[0]) {
        if k == 0 {
            assert(ident_spec(s, w).toks[0] == word_token(w));
            let name = ident_spec(s, w).toks[0]->Identifier_0;
            assert(name == w);
            assert((w + s).subrange(0, name.len() as int) =~= w);
            lemma_occurs_here(name, w + s);
        } else {
            assert(ident_spec(s, w).toks[k] == lex_spec(s).toks[k - 1]);
            lemma_identifier_round_trip(s, k - 1);
            lemma_occurs_extend(ident_spec(s, w).toks[k]->Identifier_0, w, s);
        }
    } else {
        assert(ident_spec(s, w).toks[k] == lex_spec(s.drop_first()).toks[k]);
        lemma_identifier_round_trip(s.drop_first(), k);
        lemma_occurs_tail(ident_spec(s, w).toks[k]->Identifier_0, s);
        lemma_occurs_extend(ident_spec(s, w).toks[k]->Identifier_0, w, s);
    }
}

/// Round-trip through the recovery state after an unsupported literal
/// form: it produces no tokens of its own.
proof fn lemma_rt_junk(s: Seq<char>, k: int)
    requires
        0 <= k < junk_spec(s).toks.len(),
        junk_spec(s).toks[k] is Identifier,
    ensures
        occurs_in(junk_spec(s).toks[k]->Identifier_0, s),
    decreases s.len(), 1int,
{
    if s.len() > 0 && (is_letter(s[0]) || is_digit(s[0])) {
        lemma_rt_junk(s.drop_first(), k);
        lemma_occurs_tail(junk_spec(s).toks[k]->Identifier_0, s);
    } else {
        assert(junk_spec(s).toks[k] == lex_spec(s).toks[k]);
        lemma_identifier_round_trip(s, k);
    }
}

/// Round-trip through the number state: a numeric lexeme never stores an
/// identifier, so any identifier comes from the re-dispatched rest.
proof fn lemma_rt_num(s: Seq<char>, w: Seq<char>, k: int)
    requires
        0 <= k < num_spec(s, w).toks.len(),
        num_spec(s, w).toks[k] is Identifier,
    ensures
        occurs_in(num_spec(s, w).toks[k]->Identifier_0, s),
    decreases s.len(), 1int,
{
    if s.len() == 0 {
    } else if is_digit(s[0]) {
        lemma_rt_num(s.drop_first(), w.push(s[0]), k);
        lemma_occurs_tail(num_spec(s, w).toks[k]->Identifier_0, s);
    } else if is_num_continuation(s[0]) {
        assert(num_spec(s, w).toks[k] == junk_spec(s.drop_first()).toks[k]);
        lemma_rt_junk(s.drop_first(), k);
        lemma_occurs_tail(num_spec(s, w).toks[k]->Identifier_0, s);
    } else {
        if crate::model::digits_value(w) <= i64::MAX {
            if k > 0 {
                assert(num_spec(s, w).toks[k] == lex_spec(s).toks[k - 1]);
                lemma_identifier_round_trip(s, k - 1);
            }
        } else {
            assert(num_spec(s, w).toks[k] == lex_spec(s).toks[k]);
            lemma_identifier_round_trip(s, k);
        }
    }
}

} // verus!
