//! The lexer driver.
//!
//! A [`Lexer`] owns one input buffer, a position with one character of
//! effective pushback (a character read ahead is handed back to the top
//! dispatch loop, never dropped), the in-progress lexeme bounds, and the
//! append-only token and diagnostic sequences.  [`Lexer::lex`] drives the
//! whole pass and is proved to produce exactly
//! [`crate::model::lex_spec`] of the input.

use vstd::prelude::*;

use crate::classify::{class_of, is_delimiter_char, is_digit, is_letter, is_space_char, CharClass};
use crate::dfa::{copy_atomic_token, has_child_for, root_fields, trie_child_ok, trie_ok, DfaTable};
use crate::model::{
    combine, dispatch_spec, digit_val, digits_value, empty_out, ident_spec, is_kw_prefix,
    junk_spec, kw_token, lemma_combine_empty, lemma_combine_push_diag, lemma_combine_push_tok,
    lemma_digits_value_extend, lemma_digits_value_push, lemma_ident_spec_letters,
    lemma_junk_spec_run, lemma_not_kw_prefix_word, lemma_num_spec_digits, lex_spec, num_out,
    num_spec, prepend_diag, prepend_tok, sym_spec, word_token, LexOut,
};
use crate::token::{LexDiag, Token};
use vstd::string::StrSliceExecFns;

verus! {

/// One lexing session over one input buffer.
pub struct Lexer<'a> {
    /// The input buffer.
    pub input: &'a str,
    /// The number of characters of the input.
    pub len: usize,
    /// The current stream position, in characters.
    pub pos: usize,
    /// Start of the lexeme being accumulated: the accumulator holds the
    /// characters from `lit_start` up to the scan position.
    pub lit_start: usize,
    /// The append-only output token sequence.
    pub tokens: Vec<Token>,
    /// The append-only diagnostic sequence.
    pub diags: Vec<LexDiag>,
    /// The classification table and node graph.
    pub root: DfaTable,
}

impl<'a> Lexer<'a> {
    /// Positions and lengths are consistent with the input.
    pub open spec fn wf(self) -> bool {
        &&& self.len == self.input@.len()
        &&& self.pos <= self.len
    }

    /// The input characters not yet consumed.
    pub open spec fn remaining(self) -> Seq<char> {
        self.input@.skip(self.pos as int)
    }

    /// The input characters not yet handled, counting a pushed-back
    /// character (one the caller still has to re-dispatch) as unhandled.
    pub open spec fn rem_with(self, pending: Option<char>) -> Seq<char> {
        if pending is Some {
            self.input@.skip(self.pos - 1)
        } else {
            self.input@.skip(self.pos as int)
        }
    }

    /// Everything produced so far.
    pub open spec fn out(self) -> LexOut {
        LexOut { toks: self.tokens.deep_view(), diags: self.diags.deep_view() }
    }

    /// A new session over `buf`: position at the start, nothing
    /// produced, the node graph present but not yet built.
    pub fn new(buf: &'a str) -> (lx: Lexer<'a>)
        ensures
            lx.wf(),
            lx.input == buf,
            lx.pos == 0,
            lx.lit_start == 0,
            lx.out() == empty_out(),
    {
        let len = buf.unicode_len();
        let lx = Lexer {
            input: buf,
            len,
            pos: 0,
            lit_start: 0,
            tokens: Vec::new(),
            diags: Vec::new(),
            root: DfaTable { nodes: Vec::new() },
        };
        proof {
            assert(lx.out() =~= empty_out());
        }
        lx
    }

    /// Builds the classification table and node graph for this session.
    pub fn build_dfa_tree(&mut self)
        ensures
            final(self).root.built(),
            final(self).input == old(self).input,
            final(self).len == old(self).len,
            final(self).pos == old(self).pos,
            final(self).lit_start == old(self).lit_start,
            final(self).tokens == old(self).tokens,
            final(self).diags == old(self).diags,
    {
        self.root = DfaTable::build();
    }

    /// Pulls the next character, advancing the position; `None` at end
    /// of input.
    pub fn get_ch(&mut self) -> (r: Option<char>)
        requires
            old(self).wf(),
        ensures
            final(self).wf(),
            final(self).input == old(self).input,
            final(self).len == old(self).len,
            final(self).lit_start == old(self).lit_start,
            final(self).tokens == old(self).tokens,
            final(self).diags == old(self).diags,
            final(self).root == old(self).root,
            match r {
                Some(c) => old(self).pos < old(self).len && final(self).pos == old(self).pos + 1 && c
                    == old(self).input@[old(self).pos as int],
                None => old(self).pos == old(self).len && final(self).pos == old(self).pos,
            },
    {
        if self.pos < self.len {
            let c = self.input.get_char(self.pos);
            self.pos = self.pos + 1;
            Some(c)
        } else {
            None
        }
    }

    /// Consumes identifier-continuation characters into the accumulator
    /// and returns the first non-matching character, already consumed;
    /// `None` if the input ended first.
    pub fn eat_identifier(&mut self) -> (term: Option<char>)
        requires
            old(self).wf(),
            old(self).root.built(),
        ensures
            final(self).wf(),
            final(self).input == old(self).input,
            final(self).len == old(self).len,
            final(self).lit_start == old(self).lit_start,
            final(self).tokens == old(self).tokens,
            final(self).diags == old(self).diags,
            final(self).root == old(self).root,
            old(self).pos <= final(self).pos,
            ({
                let end = final(self).pos - (if term is Some {
                    1int
                } else {
                    0int
                });
                &&& old(self).pos <= end
                &&& (forall|j: int|
                    old(self).pos <= j < end ==> is_letter(#[trigger] final(self).input@[j]))
                &&& (match term {
                    Some(t) => t == final(self).input@[end] && !is_letter(t) && final(self).pos >= 1,
                    None => final(self).pos == final(self).len,
                })
            }),
    {
        loop
            invariant
                self.wf(),
                self.root.built(),
                self.input == old(self).input,
                self.len == old(self).len,
                self.lit_start == old(self).lit_start,
                self.tokens == old(self).tokens,
                self.diags == old(self).diags,
                self.root == old(self).root,
                old(self).pos <= self.pos,
                forall|j: int| old(self).pos <= j < self.pos ==> is_letter(#[trigger] self.input@[j]),
            decreases self.len - self.pos,
        {
            let ch_option = self.get_ch();
            match ch_option {
                None => {
                    return None;
                },
                Some(ch) => {
                    let u = crate::classify::code_of(ch);
                    let is_ident = if u < 128 {
                        proof {
                            assert(root_fields(self.root.nodes@, ch));
                        }
                        self.root.nodes[u as usize].ident
                    } else {
                        false
                    };
                    proof {
                        if (ch as int) >= 128 {
                            assert(!is_letter(ch));
                        }
                    }
                    if !is_ident {
                        return Some(ch);
                    }
                },
            }
        }
    }

    /// Consumes digit-continuation characters into the accumulator and
    /// returns the first non-matching character, already consumed;
    /// `None` if the input ended first.
    pub fn eat_number(&mut self) -> (term: Option<char>)
        requires
            old(self).wf(),
            old(self).root.built(),
        ensures
            final(self).wf(),
            final(self).input == old(self).input,
            final(self).len == old(self).len,
            final(self).lit_start == old(self).lit_start,
            final(self).tokens == old(self).tokens,
            final(self).diags == old(self).diags,
            final(self).root == old(self).root,
            old(self).pos <= final(self).pos,
            ({
                let end = final(self).pos - (if term is Some {
                    1int
                } else {
                    0int
                });
                &&& old(self).pos <= end
                &&& (forall|j: int|
                    old(self).pos <= j < end ==> is_digit(#[trigger] final(self).input@[j]))
                &&& (match term {
                    Some(t) => t == final(self).input@[end] && !is_digit(t) && final(self).pos >= 1,
                    None => final(self).pos == final(self).len,
                })
            }),
    {
        loop
            invariant
                self.wf(),
                self.root.built(),
                self.input == old(self).input,
                self.len == old(self).len,
                self.lit_start == old(self).lit_start,
                self.tokens == old(self).tokens,
                self.diags == old(self).diags,
                self.root == old(self).root,
                old(self).pos <= self.pos,
                forall|j: int| old(self).pos <= j < self.pos ==> is_digit(#[trigger] self.input@[j]),
            decreases self.len - self.pos,
        {
            let ch_option = self.get_ch();
            match ch_option {
                None => {
                    return None;
                },
                Some(ch) => {
                    let u = crate::classify::code_of(ch);
                    let is_num = if u < 128 {
                        proof {
                            assert(root_fields(self.root.nodes@, ch));
                        }
                        self.root.nodes[u as usize].num_int
                    } else {
                        false
                    };
                    proof {
                        if (ch as int) >= 128 {
                            assert(!is_digit(ch));
                        }
                    }
                    if !is_num {
                        return Some(ch);
                    }
                },
            }
        }
    }

    /// Consumes the rest of a malformed literal run — letters and
    /// digits — after an unsupported form was reported, and returns the
    /// first character past it, already consumed; `None` if the input
    /// ended first.
    fn eat_junk(&mut self) -> (term: Option<char>)
        requires
            old(self).wf(),
            old(self).root.built(),
        ensures
            final(self).wf(),
            final(self).input == old(self).input,
            final(self).len == old(self).len,
            final(self).lit_start == old(self).lit_start,
            final(self).tokens == old(self).tokens,
            final(self).diags == old(self).diags,
            final(self).root == old(self).root,
            old(self).pos <= final(self).pos,
            ({
                let end = final(self).pos - (if term is Some {
                    1int
                } else {
                    0int
                });
                &&& old(self).pos <= end
                &&& (forall|j: int|
                    old(self).pos <= j < end ==> is_letter(#[trigger] final(self).input@[j])
                        || is_digit(final(self).input@[j]))
                &&& (match term {
                    Some(t) => t == final(self).input@[end] && !is_letter(t) && !is_digit(t)
                        && final(self).pos >= 1,
                    None => final(self).pos == final(self).len,
                })
            }),
    {
        loop
            invariant
                self.wf(),
                self.root.built(),
                self.input == old(self).input,
                self.len == old(self).len,
                self.lit_start == old(self).lit_start,
                self.tokens == old(self).tokens,
                self.diags == old(self).diags,
                self.root == old(self).root,
                old(self).pos <= self.pos,
                forall|j: int|
                    old(self).pos <= j < self.pos ==> is_letter(#[trigger] self.input@[j])
                        || is_digit(self.input@[j]),
            decreases self.len - self.pos,
        {
            let ch_option = self.get_ch();
            match ch_option {
                None => {
                    return None;
                },
                Some(ch) => {
                    let u = crate::classify::code_of(ch);
                    let in_run = if u < 128 {
                        proof {
                            assert(root_fields(self.root.nodes@, ch));
                        }
                        self.root.nodes[u as usize].ident || self.root.nodes[u as usize].num_int
                    } else {
                        false
                    };
                    proof {
                        if (ch as int) >= 128 {
                            assert(!is_letter(ch));
                            assert(!is_digit(ch));
                        }
                    }
                    if !in_run {
                        return Some(ch);
                    }
                },
            }
        }
    }

    /// Flushes one completed token into the output sequence.
    fn emit(&mut self, t: Token)
        ensures
            final(self).tokens.deep_view() == old(self).tokens.deep_view().push(t@),
            final(self).diags == old(self).diags,
            final(self).input == old(self).input,
            final(self).len == old(self).len,
            final(self).pos == old(self).pos,
            final(self).lit_start == old(self).lit_start,
            final(self).root == old(self).root,
            final(self).out() == (LexOut {
                toks: old(self).out().toks.push(t@),
                diags: old(self).out().diags,
            }),
    {
        self.tokens.push(t);
        proof {
            assert(self.tokens.deep_view() =~= old(self).tokens.deep_view().push(t@));
        }
    }

    /// Records one diagnostic on the side channel.
    fn report(&mut self, d: LexDiag)
        ensures
            final(self).diags.deep_view() == old(self).diags.deep_view().push(d@),
            final(self).tokens == old(self).tokens,
            final(self).input == old(self).input,
            final(self).len == old(self).len,
            final(self).pos == old(self).pos,
            final(self).lit_start == old(self).lit_start,
            final(self).root == old(self).root,
            final(self).out() == (LexOut {
                toks: old(self).out().toks,
                diags: old(self).out().diags.push(d@),
            }),
    {
        self.diags.push(d);
        proof {
            assert(self.diags.deep_view() =~= old(self).diags.deep_view().push(d@));
        }
    }

    /// Handles a multi-character symbol start: one character of
    /// lookahead picks the compound token if it extends the symbol;
    /// otherwise the single-character token is emitted and the lookahead
    /// is handed back for re-dispatch.
    fn lex_multi(&mut self, c: char) -> (pending: Option<char>)
        requires
            old(self).wf(),
            old(self).root.built(),
            1 <= old(self).pos,
            c == old(self).input@[old(self).pos - 1],
            class_of(c) == CharClass::MultiCharSymbol,
        ensures
            final(self).wf(),
            final(self).root == old(self).root,
            final(self).input == old(self).input,
            final(self).len == old(self).len,
            old(self).pos <= final(self).pos,
            (pending matches Some(p) ==> old(self).pos < final(self).pos && 1 <= final(self).pos
                && p == final(self).input@[final(self).pos - 1]),
            combine(old(self).out(), sym_spec(old(self).remaining(), c)) == combine(
                final(self).out(),
                lex_spec(final(self).rem_with(pending)),
            ),
    {
        let ghost s0 = self.remaining();
        let ghost out0 = self.out();
        let ghost ns = self.root.nodes@;
        proof {
            assert(root_fields(ns, c));
            assert(crate::dfa::sym_child_ok(ns, crate::dfa::root_childs(c)[0] as int, c));
        }
        let u = crate::classify::code_of(c);
        let look = self.get_ch();
        match look {
            None => {
                proof {
                    assert(s0 =~= Seq::<char>::empty());
                }
                let topt = copy_atomic_token(&self.root.nodes[u as usize].token);
                match topt {
                    Some(t) => {
                        self.emit(t);
                        proof {
                            lemma_combine_push_tok(out0, t@, lex_spec(s0));
                            lemma_combine_empty(out0);
                        }
                    },
                    None => {
                        proof {
                            assert(false);
                        }
                    },
                }
                None
            },
            Some(d) => {
                proof {
                    assert(s0[0] == d);
                    assert(s0.drop_first() =~= self.remaining());
                }
                proof {
                    assert forall|j: int|
                        0 <= j < ns[c as int].childs@.len() implies (
                    #[trigger] ns[c as int].childs@[j] as int) < ns.len() by {
                        assert(ns[c as int].childs@ == crate::dfa::root_childs(c));
                    }
                }
                let ci_opt = self.root.find_child(u as usize, d);
                match ci_opt {
                    Some(ci) => {
                        proof {
                            // the only child is the accepting `=` child
                            assert(ns[c as int].childs@.len() == 1);
                            assert(ns[ci as int].ch == '=');
                            assert(d == '=');
                        }
                        let topt = copy_atomic_token(&self.root.nodes[ci].token);
                        match topt {
                            Some(t) => {
                                self.emit(t);
                                proof {
                                    lemma_combine_push_tok(out0, t@, lex_spec(s0.drop_first()));
                                }
                            },
                            None => {
                                proof {
                                    assert(false);
                                }
                            },
                        }
                        None
                    },
                    None => {
                        proof {
                            // the `=` child found nothing, so the lookahead is not `=`
                            if d == '=' {
                                assert(ns[ns[c as int].childs@[0] as int].ch == d);
                                assert(has_child_for(ns, c as int, d));
                                assert(false);
                            }
                        }
                        let topt = copy_atomic_token(&self.root.nodes[u as usize].token);
                        match topt {
                            Some(t) => {
                                self.emit(t);
                                proof {
                                    lemma_combine_push_tok(out0, t@, lex_spec(s0));
                                    assert(self.rem_with(Some(d)) =~= s0);
                                }
                            },
                            None => {
                                proof {
                                    assert(false);
                                }
                            },
                        }
                        Some(d)
                    },
                }
            },
        }
    }

    /// Handles a numeric literal whose first digit `c` was just
    /// consumed: the remaining digits are accumulated, the lexeme parsed
    /// as a base-10 integer, and the terminating character handed back.
    fn lex_num(&mut self, c: char) -> (pending: Option<char>)
        requires
            old(self).wf(),
            old(self).root.built(),
            1 <= old(self).pos,
            c == old(self).input@[old(self).pos - 1],
            class_of(c) == CharClass::NumericDigit,
        ensures
            final(self).wf(),
            final(self).root == old(self).root,
            final(self).input == old(self).input,
            final(self).len == old(self).len,
            old(self).pos <= final(self).pos,
            (pending matches Some(p) ==> old(self).pos < final(self).pos && 1 <= final(self).pos
                && p == final(self).input@[final(self).pos - 1]),
            combine(old(self).out(), num_spec(old(self).remaining(), seq![c])) == combine(
                final(self).out(),
                lex_spec(final(self).rem_with(pending)),
            ),
    {
        self.lit_start = self.pos - 1;
        let ghost s0 = self.remaining();
        let ghost out0 = self.out();
        let ghost pos0 = self.pos as int;
        let ghost ls = self.lit_start as int;
        proof {
            assert(self.input@.subrange(ls, pos0) =~= seq![c]);
        }
        let term = self.eat_number();
        let end: usize = if term.is_some() {
            self.pos - 1
        } else {
            self.pos
        };
        let ghost wfull = self.input@.subrange(ls, end as int);
        proof {
            lemma_num_spec_digits(s0, seq![c], end - pos0);
            assert(s0.skip(end - pos0) =~= self.input@.skip(end as int));
            assert(seq![c] + s0.take(end - pos0) =~= wfull);
            assert(num_spec(s0, seq![c]) == num_spec(self.input@.skip(end as int), wfull));
            assert(is_digit(wfull[0]));
            assert(forall|j: int| 0 <= j < wfull.len() ==> is_digit(#[trigger] wfull[j]));
        }
        // a float, hex or binary continuation after the digits makes the
        // whole run an unsupported literal form: it is surfaced, never
        // emitted as a plain integer
        let is_cont: bool = match term {
            Some(t) => {
                let u = crate::classify::code_of(t);
                if u < 128 {
                    proof {
                        assert(root_fields(self.root.nodes@, t));
                    }
                    let r = self.root.nodes[u as usize].num_float
                        || self.root.nodes[u as usize].num_hex
                        || self.root.nodes[u as usize].num_bin;
                    proof {
                        assert(r == crate::classify::is_num_continuation(t));
                    }
                    r
                } else {
                    proof {
                        assert(!crate::classify::is_num_continuation(t));
                    }
                    false
                }
            },
            None => false,
        };
        if is_cont {
            let t = match term {
                Some(t) => t,
                None => {
                    proof {
                        assert(false);
                    }
                    ' '
                },
            };
            proof {
                let s_end = self.input@.skip(end as int);
                assert(s_end[0] == t);
                assert(!is_digit(t));
                assert(num_spec(s_end, wfull) == prepend_diag(
                    crate::token::DiagModel::UnsupportedLiteral(t),
                    junk_spec(s_end.drop_first()),
                ));
                assert(s_end.drop_first() =~= self.remaining());
            }
            self.report(LexDiag::UnsupportedLiteral(t));
            let ghost pos1 = self.pos as int;
            let term2 = self.eat_junk();
            let ghost end2 = self.pos - (if term2 is Some {
                1int
            } else {
                0int
            });
            proof {
                let srun = self.input@.skip(pos1);
                lemma_junk_spec_run(srun, end2 - pos1);
                assert(srun.skip(end2 - pos1) =~= self.input@.skip(end2));
                if term2 is Some {
                    assert(self.input@.skip(end2)[0] == self.input@[end2]);
                } else {
                    assert(self.input@.skip(end2) =~= Seq::<char>::empty());
                }
                assert(junk_spec(self.input@.skip(end2)) == lex_spec(self.input@.skip(end2)));
                lemma_combine_push_diag(
                    out0,
                    crate::token::DiagModel::UnsupportedLiteral(t),
                    junk_spec(srun),
                );
                assert(self.rem_with(term2) =~= self.input@.skip(end2));
            }
            return term2;
        }
        let v_opt = self.parse_digits(self.lit_start, end);
        let lexeme = self.input.substring_char(self.lit_start, end).to_owned();
        proof {
            // what the machine owes after the digits: the number token or
            // the parse diagnostic, then the rest
            let rest = if term is Some {
                lex_spec(self.input@.skip(end as int))
            } else {
                empty_out()
            };
            if term is None {
                assert(self.input@.skip(end as int) =~= Seq::<char>::empty());
            }
            assert(num_spec(self.input@.skip(end as int), wfull) == num_out(wfull, rest));
        }
        match v_opt {
            Some(v) => {
                self.emit(Token::LitInt(lexeme, v));
                proof {
                    assert(Token::LitInt(lexeme, v)@ == crate::token::TokenModel::LitInt(
                        wfull,
                        digits_value(wfull),
                    ));
                }
            },
            None => {
                self.report(LexDiag::NumericParseError(lexeme));
            },
        }
        proof {
            let rest = if term is Some {
                lex_spec(self.input@.skip(end as int))
            } else {
                empty_out()
            };
            if v_opt is Some {
                lemma_combine_push_tok(
                    out0,
                    crate::token::TokenModel::LitInt(wfull, digits_value(wfull)),
                    rest,
                );
            } else {
                lemma_combine_push_diag(
                    out0,
                    crate::token::DiagModel::NumericParseError(wfull),
                    rest,
                );
            }
            if term is Some {
                assert(self.rem_with(term) =~= self.input@.skip(end as int));
            } else {
                assert(self.rem_with(term) =~= Seq::<char>::empty());
                lemma_combine_empty(self.out());
                lemma_combine_empty(out0);
            }
        }
        term
    }

    /// Emits the token of a completed identifier or keyword scan: the
    /// accepting node's keyword token, or an identifier carrying the
    /// accumulated lexeme `input[lit_start..to)`.
    fn emit_word(&mut self, cur: usize, to: usize)
        requires
            old(self).wf(),
            old(self).root.built(),
            (cur as int) < old(self).root.nodes@.len(),
            old(self).root.nodes@[cur as int].node_type == CharClass::IdentifierOrKeyword,
            old(self).lit_start <= to <= old(self).len,
            old(self).root.nodes@[cur as int].word@ == old(self).input@.subrange(
                old(self).lit_start as int,
                to as int,
            ),
        ensures
            final(self).wf(),
            final(self).root == old(self).root,
            final(self).input == old(self).input,
            final(self).len == old(self).len,
            final(self).pos == old(self).pos,
            final(self).out() == (LexOut {
                toks: old(self).out().toks.push(
                    word_token(old(self).root.nodes@[cur as int].word@),
                ),
                diags: old(self).out().diags,
            }),
    {
        let ghost ns = self.root.nodes@;
        let ghost w = ns[cur as int].word@;
        proof {
            assert(ns[cur as int].node_type == CharClass::IdentifierOrKeyword);
            assert(trie_ok(ns, cur as int));
        }
        let topt = copy_atomic_token(&self.root.nodes[cur].token);
        match topt {
            Some(t) => {
                proof {
                    assert(kw_token(w) == Some(t@));
                    assert(word_token(w) == t@);
                }
                self.emit(t);
            },
            None => {
                let name = self.input.substring_char(self.lit_start, to).to_owned();
                proof {
                    assert(name@ == w);
                    assert(kw_token(w) is None);
                    assert(word_token(w) == crate::token::TokenModel::Identifier(w));
                }
                self.emit(Token::Identifier(name));
            },
        }
    }

    /// Handles an identifier or keyword whose first letter `c` was just
    /// consumed.  The scan walks the keyword paths child by child; a
    /// letter off every path switches to plain identifier accumulation;
    /// end of input or a delimiter completes the token, the delimiter
    /// being handed back; any other character is reported and abandons
    /// the token.
    fn lex_ident(&mut self, c: char) -> (pending: Option<char>)
        requires
            old(self).wf(),
            old(self).root.built(),
            1 <= old(self).pos,
            c == old(self).input@[old(self).pos - 1],
            class_of(c) == CharClass::IdentifierOrKeyword,
        ensures
            final(self).wf(),
            final(self).root == old(self).root,
            final(self).input == old(self).input,
            final(self).len == old(self).len,
            old(self).pos <= final(self).pos,
            (pending matches Some(p) ==> old(self).pos < final(self).pos && 1 <= final(self).pos
                && p == final(self).input@[final(self).pos - 1]),
            combine(old(self).out(), ident_spec(old(self).remaining(), seq![c])) == combine(
                final(self).out(),
                lex_spec(final(self).rem_with(pending)),
            ),
    {
        self.lit_start = self.pos - 1;
        let ghost s0 = self.remaining();
        let ghost out0 = self.out();
        let ghost pos0 = self.pos as int;
        let ghost ls = self.lit_start as int;
        let ghost ns = self.root.nodes@;
        proof {
            assert(is_letter(c));
            assert(root_fields(ns, c));
            assert(ns[c as int].node_type == CharClass::IdentifierOrKeyword);
            assert(trie_ok(ns, c as int));
            assert(self.input@.subrange(ls, pos0) =~= seq![c]);
        }
        let u = crate::classify::code_of(c);
        let mut cur: usize = u as usize;
        loop
            invariant
                self.wf(),
                self.root.built(),
                self.input == old(self).input,
                self.len == old(self).len,
                self.tokens == old(self).tokens,
                self.diags == old(self).diags,
                self.root == old(self).root,
                ns == self.root.nodes@,
                out0 == self.out(),
                s0 == old(self).input@.skip(pos0),
                pos0 == old(self).pos,
                self.lit_start == ls,
                ls == pos0 - 1,
                0 <= ls < self.pos <= self.len,
                pos0 <= self.pos,
                (cur as int) < ns.len(),
                ns[cur as int].node_type == CharClass::IdentifierOrKeyword,
                ns[cur as int].word@ == self.input@.subrange(ls, self.pos as int),
                ident_spec(s0, seq![c]) == ident_spec(
                    self.remaining(),
                    ns[cur as int].word@,
                ),
            decreases self.len - self.pos,
        {
            let ghost w = ns[cur as int].word@;
            proof {
                assert(trie_ok(ns, cur as int));
            }
            let look = self.get_ch();
            match look {
                None => {
                    proof {
                        assert(self.remaining() =~= Seq::<char>::empty());
                        assert(ident_spec(s0, seq![c]) == prepend_tok(word_token(w), empty_out()));
                    }
                    self.emit_word(cur, self.pos);
                    proof {
                        lemma_combine_push_tok(out0, word_token(w), empty_out());
                        lemma_combine_empty(self.out());
                        assert(self.rem_with(None::<char>) =~= Seq::<char>::empty());
                        lemma_combine_empty(out0);
                    }
                    return None;
                },
                Some(d) => {
                    let ghost rem_d = self.input@.skip(self.pos - 1);
                    proof {
                        assert(rem_d[0] == d);
                        assert(rem_d.drop_first() =~= self.remaining());
                        assert forall|j: int|
                            0 <= j < ns[cur as int].childs@.len() implies (
                        #[trigger] ns[cur as int].childs@[j] as int) < ns.len() by {
                            assert(trie_child_ok(ns, cur as int, j));
                        }
                    }
                    let nxt = self.root.find_child(cur, d);
                    match nxt {
                        Some(ci) => {
                            proof {
                                let j = choose|j: int|
                                    0 <= j < ns[cur as int].childs@.len() && (
                                    #[trigger] ns[cur as int].childs@[j]) == ci;
                                assert(trie_child_ok(ns, cur as int, j));
                                assert(ns[ci as int].word@ == w.push(d));
                                assert(is_letter(d));
                                assert(ident_spec(rem_d, w) == ident_spec(
                                    self.remaining(),
                                    w.push(d),
                                ));
                                assert(self.input@.subrange(ls, self.pos as int) =~= w.push(d));
                            }
                            cur = ci;
                        },
                        None => {
                            let is_l = crate::classify::letter(d);
                            if is_l {
                                proof {
                                    assert(!has_child_for(ns, cur as int, d));
                                    assert(!is_kw_prefix(w.push(d)));
                                    assert(ident_spec(rem_d, w) == ident_spec(
                                        self.remaining(),
                                        w.push(d),
                                    ));
                                }
                                let ghost wd = w.push(d);
                                let ghost pos_d = self.pos as int;
                                proof {
                                    assert(self.input@.subrange(ls, pos_d) =~= wd);
                                }
                                let term = self.eat_identifier();
                                let to: usize = if term.is_some() {
                                    self.pos - 1
                                } else {
                                    self.pos
                                };
                                let ghost wfull = self.input@.subrange(ls, to as int);
                                proof {
                                    let srem = self.input@.skip(pos_d);
                                    lemma_ident_spec_letters(srem, wd, to - pos_d);
                                    assert(srem.skip(to - pos_d) =~= self.input@.skip(to as int));
                                    assert(wd + srem.take(to - pos_d) =~= wfull);
                                    assert(ident_spec(self.input@.skip(pos_d), wd) == ident_spec(
                                        self.input@.skip(to as int),
                                        wfull,
                                    ));
                                    assert(wd.is_prefix_of(wfull)) by {
                                        assert(wfull.subrange(0, wd.len() as int) =~= wd);
                                    }
                                    lemma_not_kw_prefix_word(wd, wfull);
                                    assert(word_token(wfull)
                                        == crate::token::TokenModel::Identifier(wfull));
                                }
                                match term {
                                    None => {
                                        let name = self.input.substring_char(
                                            self.lit_start,
                                            to,
                                        ).to_owned();
                                        self.emit(Token::Identifier(name));
                                        proof {
                                            assert(self.input@.skip(to as int)
                                                =~= Seq::<char>::empty());
                                            assert(ident_spec(s0, seq![c]) == prepend_tok(
                                                word_token(wfull),
                                                empty_out(),
                                            ));
                                            lemma_combine_push_tok(
                                                out0,
                                                word_token(wfull),
                                                empty_out(),
                                            );
                                            lemma_combine_empty(self.out());
                                            lemma_combine_empty(out0);
                                            assert(self.rem_with(None::<char>)
                                                =~= Seq::<char>::empty());
                                        }
                                        return None;
                                    },
                                    Some(t2) => {
                                        let is_dl = crate::classify::delimiter(t2);
                                        if is_dl {
                                            let name = self.input.substring_char(
                                                self.lit_start,
                                                to,
                                            ).to_owned();
                                            self.emit(Token::Identifier(name));
                                            proof {
                                                let srest = self.input@.skip(to as int);
                                                assert(srest[0] == t2);
                                                assert(!is_letter(t2));
                                                assert(is_delimiter_char(t2));
                                                assert(ident_spec(srest, wfull) == prepend_tok(
                                                    word_token(wfull),
                                                    lex_spec(srest),
                                                ));
                                                lemma_combine_push_tok(
                                                    out0,
                                                    word_token(wfull),
                                                    lex_spec(srest),
                                                );
                                                assert(self.rem_with(Some(t2)) =~= srest);
                                            }
                                            return Some(t2);
                                        } else {
                                            self.report(LexDiag::UnexpectedChar(t2));
                                            proof {
                                                let srest = self.input@.skip(to as int);
                                                assert(srest[0] == t2);
                                                assert(ident_spec(srest, wfull) == prepend_diag(
                                                    crate::token::DiagModel::UnexpectedChar(t2),
                                                    lex_spec(srest.drop_first()),
                                                ));
                                                assert(srest.drop_first() =~= self.remaining());
                                                lemma_combine_push_diag(
                                                    out0,
                                                    crate::token::DiagModel::UnexpectedChar(t2),
                                                    lex_spec(self.remaining()),
                                                );
                                            }
                                            return None;
                                        }
                                    },
                                }
                            } else {
                                let is_dl = crate::classify::delimiter(d);
                                if is_dl {
                                    proof {
                                        assert(ident_spec(rem_d, w) == prepend_tok(
                                            word_token(w),
                                            lex_spec(rem_d),
                                        ));
                                    }
                                    self.emit_word(cur, self.pos - 1);
                                    proof {
                                        lemma_combine_push_tok(out0, word_token(w), lex_spec(rem_d));
                                        assert(self.rem_with(Some(d)) =~= rem_d);
                                    }
                                    return Some(d);
                                } else {
                                    self.report(LexDiag::UnexpectedChar(d));
                                    proof {
                                        assert(ident_spec(rem_d, w) == prepend_diag(
                                            crate::token::DiagModel::UnexpectedChar(d),
                                            lex_spec(rem_d.drop_first()),
                                        ));
                                        assert(rem_d.drop_first() =~= self.remaining());
                                        lemma_combine_push_diag(
                                            out0,
                                            crate::token::DiagModel::UnexpectedChar(d),
                                            lex_spec(self.remaining()),
                                        );
                                    }
                                    return None;
                                }
                            }
                        },
                    }
                },
            }
        }
    }

    /// Dispatches one consumed character `c` by its classification:
    /// multi-character symbols, identifiers and keywords, numeric
    /// literals, or a diagnostic for a character no token starts with.
    /// Returns a character read ahead that the caller must re-dispatch.
    fn lex_node(&mut self, c: char) -> (pending: Option<char>)
        requires
            old(self).wf(),
            old(self).root.built(),
            1 <= old(self).pos,
            c == old(self).input@[old(self).pos - 1],
            !is_space_char(c),
            class_of(c) != CharClass::SingleCharSymbol,
        ensures
            final(self).wf(),
            final(self).root == old(self).root,
            final(self).input == old(self).input,
            final(self).len == old(self).len,
            old(self).pos <= final(self).pos,
            (pending matches Some(p) ==> old(self).pos < final(self).pos && 1 <= final(self).pos
                && p == final(self).input@[final(self).pos - 1]),
            combine(old(self).out(), dispatch_spec(c, old(self).remaining())) == combine(
                final(self).out(),
                lex_spec(final(self).rem_with(pending)),
            ),
    {
        let ghost ns = self.root.nodes@;
        let u = crate::classify::code_of(c);
        if u < 128 {
            proof {
                assert(root_fields(ns, c));
            }
            let nt = self.root.nodes[u as usize].node_type;
            match nt {
                CharClass::MultiCharSymbol => self.lex_multi(c),
                CharClass::IdentifierOrKeyword => self.lex_ident(c),
                CharClass::NumericDigit => self.lex_num(c),
                _ => {
                    proof {
                        assert(class_of(c) == CharClass::Unclassified);
                    }
                    let dg = if c == '.' || c == '"' {
                        LexDiag::UnsupportedLiteral(c)
                    } else {
                        LexDiag::UnexpectedChar(c)
                    };
                    let ghost s = self.remaining();
                    self.report(dg);
                    proof {
                        assert(dg@ == crate::model::start_diag(c));
                        lemma_combine_push_diag(
                            old(self).out(),
                            crate::model::start_diag(c),
                            lex_spec(s),
                        );
                    }
                    None
                },
            }
        } else {
            proof {
                assert(!is_letter(c));
                assert(!is_digit(c));
                assert(class_of(c) == CharClass::Unclassified);
                assert(!crate::classify::is_unsupported_start(c));
            }
            let ghost s = self.remaining();
            self.report(LexDiag::UnexpectedChar(c));
            proof {
                lemma_combine_push_diag(
                    old(self).out(),
                    crate::model::start_diag(c),
                    lex_spec(s),
                );
            }
            None
        }
    }

    /// Runs the whole pass: builds the node graph, then repeatedly pulls
    /// one character — or takes back the one a dispatch read ahead — and
    /// dispatches it, until the input is exhausted.  Produces exactly
    /// what [`lex_spec`] says of the unconsumed input.
    pub fn lex(&mut self)
        requires
            old(self).wf(),
        ensures
            final(self).wf(),
            final(self).input == old(self).input,
            final(self).len == old(self).len,
            final(self).pos == final(self).len,
            final(self).root.built(),
            final(self).out() == combine(old(self).out(), lex_spec(old(self).remaining())),
    {
        self.build_dfa_tree();
        let ghost out0 = self.out();
        let ghost rem0 = self.remaining();
        let ghost ns = self.root.nodes@;
        let mut pending: Option<char> = None;
        loop
            invariant
                self.wf(),
                self.root.built(),
                ns == self.root.nodes@,
                self.input == old(self).input,
                self.len == old(self).len,
                out0 == old(self).out(),
                rem0 == old(self).remaining(),
                (pending matches Some(p) ==> 1 <= self.pos && p == self.input@[self.pos - 1]),
                combine(out0, lex_spec(rem0)) == combine(
                    self.out(),
                    lex_spec(self.rem_with(pending)),
                ),
            ensures
                self.wf(),
                self.root.built(),
                self.input == old(self).input,
                self.len == old(self).len,
                self.pos == self.len,
                self.out() == combine(out0, lex_spec(rem0)),
            decreases (self.len - self.pos) * 2 + (if pending is Some {
                1int
            } else {
                0int
            }),
        {
            let ghost s_it = self.rem_with(pending);
            let c: char;
            match pending {
                Some(d) => {
                    c = d;
                    pending = None;
                },
                None => {
                    match self.get_ch() {
                        Some(d) => {
                            c = d;
                        },
                        None => {
                            proof {
                                assert(s_it =~= Seq::<char>::empty());
                                lemma_combine_empty(self.out());
                            }
                            break ;
                        },
                    }
                },
            }
            proof {
                assert(s_it[0] == c);
                assert(s_it.drop_first() =~= self.remaining());
            }
            let ghost out_b = self.out();
            let u = crate::classify::code_of(c);
            if u < 128 {
                proof {
                    assert(root_fields(ns, c));
                }
                let sp = self.root.nodes[u as usize].space || self.root.nodes[u as usize].line_end;
                if sp {
                    proof {
                        assert(is_space_char(c));
                        assert(lex_spec(s_it) == lex_spec(self.remaining()));
                    }
                    pending = None;
                } else {
                    let nt = self.root.nodes[u as usize].node_type;
                    match nt {
                        CharClass::SingleCharSymbol => {
                            let topt = copy_atomic_token(&self.root.nodes[u as usize].token);
                            match topt {
                                Some(t) => {
                                    let ghost srest = self.remaining();
                                    self.emit(t);
                                    proof {
                                        assert(lex_spec(s_it) == prepend_tok(
                                            crate::model::single_symbol_token(c),
                                            lex_spec(srest),
                                        ));
                                        lemma_combine_push_tok(
                                            out_b,
                                            crate::model::single_symbol_token(c),
                                            lex_spec(srest),
                                        );
                                    }
                                },
                                None => {
                                    proof {
                                        assert(false);
                                    }
                                },
                            }
                            pending = None;
                        },
                        _ => {
                            proof {
                                assert(!is_space_char(c));
                                assert(class_of(c) != CharClass::SingleCharSymbol);
                                assert(lex_spec(s_it) == dispatch_spec(c, self.remaining()));
                            }
                            pending = self.lex_node(c);
                        },
                    }
                }
            } else {
                proof {
                    assert(!is_space_char(c));
                    assert(class_of(c) == CharClass::Unclassified);
                    assert(lex_spec(s_it) == dispatch_spec(c, self.remaining()));
                }
                pending = self.lex_node(c);
            }
        }
        proof {
            lemma_combine_empty(self.out());
        }
    }

    /// Parses the digit run `input[from..to)` as a base-10 integer;
    /// `None` exactly when the value does not fit a 64-bit integer.
    pub fn parse_digits(&self, from: usize, to: usize) -> (r: Option<i64>)
        requires
            self.wf(),
            from <= to <= self.len,
            forall|j: int| from <= j < to ==> is_digit(#[trigger] self.input@[j]),
        ensures
            ({
                let w = self.input@.subrange(from as int, to as int);
                match r {
                    Some(v) => digits_value(w) <= i64::MAX && v as int == digits_value(w) && v
                        >= 0,
                    None => digits_value(w) > i64::MAX,
                }
            }),
    {
        let ghost whole = self.input@.subrange(from as int, to as int);
        proof {
            assert(forall|j: int| 0 <= j < whole.len() ==> is_digit(#[trigger] whole[j]));
        }
        let mut acc: i64 = 0;
        let mut i: usize = from;
        while i < to
            invariant
                self.wf(),
                from <= i <= to <= self.len,
                forall|j: int| from <= j < to ==> is_digit(#[trigger] self.input@[j]),
                whole == self.input@.subrange(from as int, to as int),
                forall|j: int| 0 <= j < whole.len() ==> is_digit(#[trigger] whole[j]),
                0 <= acc,
                acc as int == digits_value(self.input@.subrange(from as int, i as int)),
            decreases to - i,
        {
            let c = self.input.get_char(i);
            assert(c == whole[i - from]);
            let d = (c as u32) - ('0' as u32);
            let dl: i64 = d as i64;
            proof {
                assert(is_digit(c));
                assert(0 <= dl <= 9);
                assert(dl as int == digit_val(c));
            }
            let ghost pre = self.input@.subrange(from as int, i as int);
            proof {
                assert(self.input@.subrange(from as int, i + 1) =~= pre.push(c));
                lemma_digits_value_push(pre, c);
            }
            if acc > 922_337_203_685_477_580i64 || (acc == 922_337_203_685_477_580i64 && dl > 7) {
                proof {
                    assert(digits_value(pre.push(c)) == acc as int * 10 + dl as int);
                    assert(digits_value(pre.push(c)) > i64::MAX);
                    assert(pre.push(c) =~= whole.take(i + 1 - from));
                    lemma_digits_value_extend(whole, i + 1 - from);
                    assert(digits_value(whole) > i64::MAX);
                }
                return None;
            }
            acc = acc * 10 + dl;
            i = i + 1;
        }
        proof {
            assert(self.input@.subrange(from as int, i as int) =~= whole);
        }
        Some(acc)
    }
}

/// Lexes a whole buffer: the token sequence and the diagnostics, exactly
/// as [`lex_spec`] states them.
pub fn tokenize(input: &str) -> (r: (Vec<Token>, Vec<LexDiag>))
    ensures
        r.0.deep_view() == lex_spec(input@).toks,
        r.1.deep_view() == lex_spec(input@).diags,
{
    let mut lx = Lexer::new(input);
    lx.lex();
    proof {
        assert(input@.skip(0) =~= input@);
        lemma_combine_empty(lex_spec(input@));
        assert(lx.out() == lex_spec(input@));
    }
    let Lexer { tokens, diags, .. } = lx;
    (tokens, diags)
}

} // verus!
