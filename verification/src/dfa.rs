//! The DFA node graph.
//!
//! One root node per ASCII code carries that code's classification and
//! capability flags.  Roots of multi-character symbols own one accepting
//! child keyed by `=`; roots of `f`, `i` and `l` start the keyword paths
//! (`f`→`n`, `f`→`l`→`o`→`a`→`t`, `i`→`n`→`t`, `l`→`e`→`t`).  The graph is
//! built once per session and read-only afterwards.
//!
//! Nodes live in one arena vector, children as index lists: the first 128
//! entries are the roots, the children stand behind them at fixed indices.
//! Each node records, as a ghost `word`, the character path that reaches
//! it; [`DfaTable::built`] ties every field to the specification functions
//! in [`crate::classify`] and [`crate::model`].  In particular an accepting
//! node reached after N characters carries a token whose text has length
//! exactly N.

use vstd::prelude::*;

use crate::classify::{
    class_of, is_delimiter_char, is_digit, is_letter, is_multi_start, is_symbol_char, CharClass,
};
use crate::model::{compound_symbol_token, is_kw_prefix, kw_token, single_symbol_token};
use crate::token::{is_atomic, token_text, Token, TokenModel};

verus! {

/// The number of root nodes: one per ASCII code.
pub const ASCII_COUNT: usize = 128;

/// The total number of nodes in the built graph: the roots, the seven
/// compound-symbol children, and the nine keyword-path nodes.
pub const NODE_COUNT: usize = 144;

/// One automaton state.
pub struct DfaNode {
    /// The character that leads to this node.
    pub ch: char,
    /// The classification decided by this node's root.
    pub node_type: CharClass,
    /// Arena indices of the children, each keyed by its `ch`.
    pub childs: Vec<usize>,
    /// Whether a token may be emitted at this node.
    pub could_be_end: bool,
    /// The token this node emits when accepting.
    pub token: Option<Token>,
    /// The character may continue an identifier.
    pub ident: bool,
    /// The character is a symbol.
    pub symbol: bool,
    /// The character terminates a line.
    pub line_end: bool,
    /// The character is blank space.
    pub space: bool,
    /// The character may continue an integer literal.
    pub num_int: bool,
    /// The character would continue a digit run as a float literal;
    /// float literal syntax is unsupported, so such a run is rejected.
    pub num_float: bool,
    /// The character would continue a digit run as a hex literal;
    /// hex literal syntax is unsupported, so such a run is rejected.
    pub num_hex: bool,
    /// The character would continue a digit run as a binary literal;
    /// binary literal syntax is unsupported, so such a run is rejected.
    pub num_bin: bool,
    /// The character cleanly delimits an identifier or keyword.
    pub is_delimit: bool,
    /// The character path from the root to this node.
    pub word: Ghost<Seq<char>>,
}

impl DfaNode {
    /// A blank node: unclassified, no children, no token, no capabilities.
    pub fn new() -> (n: DfaNode)
        ensures
            n.ch == '\0',
            n.node_type == CharClass::Unclassified,
            n.childs@ =~= Seq::<usize>::empty(),
            !n.could_be_end,
            n.token is None,
            !n.ident,
            !n.symbol,
            !n.line_end,
            !n.space,
            !n.num_int,
            !n.num_float,
            !n.num_hex,
            !n.num_bin,
            !n.is_delimit,
            n.word@ =~= Seq::<char>::empty(),
    {
        DfaNode {
            ch: '\0',
            node_type: CharClass::Unclassified,
            childs: Vec::new(),
            could_be_end: false,
            token: None,
            ident: false,
            symbol: false,
            line_end: false,
            space: false,
            num_int: false,
            num_float: false,
            num_hex: false,
            num_bin: false,
            is_delimit: false,
            word: Ghost(Seq::empty()),
        }
    }
}

/// The arena indices the built graph assigns to each root's children.
pub open spec fn root_childs(c: char) -> Seq<usize> {
    if c == '=' {
        seq![128usize]
    } else if c == '>' {
        seq![129usize]
    } else if c == '<' {
        seq![130usize]
    } else if c == '+' {
        seq![131usize]
    } else if c == '-' {
        seq![132usize]
    } else if c == '*' {
        seq![133usize]
    } else if c == '/' {
        seq![134usize]
    } else if c == 'f' {
        seq![135usize, 136usize]
    } else if c == 'i' {
        seq![140usize]
    } else if c == 'l' {
        seq![142usize]
    } else {
        Seq::empty()
    }
}

/// The facts the root node of `c` satisfies, over its own fields alone.
pub open spec fn root_fields(ns: Seq<DfaNode>, c: char) -> bool {
    let n = ns[c as int];
    &&& n.ch == c
    &&& n.node_type == class_of(c)
    &&& n.ident == is_letter(c)
    &&& n.num_int == is_digit(c)
    &&& n.space == (c == ' ' || c == '\t' || c == '\r')
    &&& n.line_end == (c == '\n')
    &&& n.symbol == is_symbol_char(c)
    &&& n.is_delimit == is_delimiter_char(c)
    &&& n.num_float == (c == '.')
    &&& n.num_hex == (c == 'x')
    &&& n.num_bin == (c == 'b')
    &&& n.word@ == seq![c]
    &&& n.childs@ == root_childs(c)
    &&& n.could_be_end == is_symbol_char(c)
    &&& (is_symbol_char(c) ==> (n.token matches Some(t) && t@ == single_symbol_token(c)
        && is_atomic(t)))
    &&& (!is_symbol_char(c) ==> n.token is None)
}

/// The accepting child of a multi-character symbol root: keyed by `=`,
/// carrying the compound token.
pub open spec fn sym_child_ok(ns: Seq<DfaNode>, ci: int, c: char) -> bool {
    let m = ns[ci];
    &&& 128 <= ci < ns.len()
    &&& m.ch == '='
    &&& m.node_type == CharClass::MultiCharSymbol
    &&& (m.token matches Some(t) && t@ == compound_symbol_token(c) && is_atomic(t))
    &&& m.could_be_end
    &&& m.childs@.len() == 0
    &&& m.word@ == seq![c, '=']
}

/// Whether some child of node `i` is keyed by `d`.
pub open spec fn has_child_for(ns: Seq<DfaNode>, i: int, d: char) -> bool {
    exists|j: int|
        0 <= j < ns[i].childs@.len() && ns[#[trigger] ns[i].childs@[j] as int].ch == d
}

/// A child on a keyword path: a letter-keyed node behind the roots whose
/// word extends its parent's by its own character.
pub open spec fn trie_child_ok(ns: Seq<DfaNode>, i: int, j: int) -> bool {
    let ci = ns[i].childs@[j] as int;
    &&& 128 <= ci < ns.len()
    &&& ns[ci].node_type == CharClass::IdentifierOrKeyword
    &&& is_letter(ns[ci].ch)
    &&& ns[ci].word@ == ns[i].word@.push(ns[ci].ch)
}

/// The facts every identifier-class node satisfies.
///
/// The node's token is exactly the keyword its word spells, if any, so
/// an accepting node reached after N characters carries a token of text
/// length N; and its children are keyed by precisely the letters that
/// extend the word to a longer keyword prefix.
pub open spec fn trie_ok(ns: Seq<DfaNode>, i: int) -> bool {
    let n = ns[i];
    &&& n.word@.len() >= 1
    &&& n.ident
    &&& (match n.token {
        Some(t) => kw_token(n.word@) == Some(t@) && is_atomic(t) && token_text(t@) == n.word@,
        None => kw_token(n.word@) is None,
    })
    &&& n.could_be_end == (kw_token(n.word@) is Some)
    &&& (forall|j: int| 0 <= j < n.childs@.len() ==> #[trigger] trie_child_ok(ns, i, j))
    &&& (forall|d: char|
        is_letter(d) ==> (#[trigger] has_child_for(ns, i, d) <==> is_kw_prefix(
            n.word@.push(d),
        )))
}

/// The DFA node graph: the classification table and the symbol and
/// keyword automata in one arena.
pub struct DfaTable {
    pub nodes: Vec<DfaNode>,
}

impl DfaTable {
    /// The full characterization of the built graph, which every proof
    /// about scanning rests on.
    pub open spec fn built(self) -> bool {
        let ns = self.nodes@;
        &&& ns.len() == NODE_COUNT
        &&& (forall|c: char| 0 <= (c as int) && (c as int) < 128 ==> #[trigger] root_fields(ns, c))
        &&& (forall|k: int| 0 <= k < 128 ==> (#[trigger] ns[k].ch as int) == k)
        &&& (forall|c: char|
            0 <= (c as int) && (c as int) < 128 && is_multi_start(c) ==> sym_child_ok(
                ns,
                #[trigger] root_childs(c)[0] as int,
                c,
            ))
        &&& (forall|i: int|
            0 <= i < ns.len() && (#[trigger] ns[i].node_type) == CharClass::IdentifierOrKeyword
                ==> trie_ok(ns, i))
    }
}


/// A child list with one entry.
fn one_child(a: usize) -> (v: Vec<usize>)
    ensures
        v@ =~= seq![a],
{
    let mut v: Vec<usize> = Vec::new();
    v.push(a);
    v
}

/// A child list with two entries.
fn two_childs(a: usize, b: usize) -> (v: Vec<usize>)
    ensures
        v@ =~= seq![a, b],
{
    let mut v: Vec<usize> = Vec::new();
    v.push(a);
    v.push(b);
    v
}

/// Duplicates the token a node may carry; node tokens are keywords and
/// symbols, which carry no lexeme.
pub fn copy_atomic_token(o: &Option<Token>) -> (r: Option<Token>)
    requires
        o matches Some(t) ==> is_atomic(*t),
    ensures
        r == *o,
{
    match o {
        None => None,
        Some(t) => Some(t.atomic_copy()),
    }
}

impl DfaTable {
    /// Looks up the child of node `i` keyed by `d`, scanning the node's
    /// ordered child list.
    pub fn find_child(&self, i: usize, d: char) -> (r: Option<usize>)
        requires
            (i as int) < self.nodes@.len(),
            forall|j: int|
                0 <= j < self.nodes@[i as int].childs@.len() ==> (#[trigger] self.nodes@[i as int].childs@[j] as int)
                    < self.nodes@.len(),
        ensures
            match r {
                Some(ci) => (ci as int) < self.nodes@.len() && self.nodes@[ci as int].ch == d
                    && exists|j: int|
                    0 <= j < self.nodes@[i as int].childs@.len() && (
                    #[trigger] self.nodes@[i as int].childs@[j]) == ci,
                None => !has_child_for(self.nodes@, i as int, d),
            },
    {
        let n_childs = self.nodes[i].childs.len();
        let mut j: usize = 0;
        while j < n_childs
            invariant
                (i as int) < self.nodes@.len(),
                n_childs == self.nodes@[i as int].childs@.len(),
                j <= n_childs,
                forall|jj: int|
                    0 <= jj < self.nodes@[i as int].childs@.len() ==> (
                    #[trigger] self.nodes@[i as int].childs@[jj] as int) < self.nodes@.len(),
                forall|jj: int|
                    0 <= jj < j ==> self.nodes@[#[trigger] self.nodes@[i as int].childs@[jj] as int].ch
                        != d,
            decreases n_childs - j,
        {
            let ci = self.nodes[i].childs[j];
            if self.nodes[ci].ch == d {
                return Some(ci);
            }
            j = j + 1;
        }
        None
    }
}

/// The single-character token of a symbol, as a runtime value.
pub fn single_token(c: char) -> (t: Token)
    requires
        is_symbol_char(c),
    ensures
        t@ == single_symbol_token(c),
        is_atomic(t),
{
    match c {
        ',' => Token::Comma,
        '(' => Token::ParenL,
        ')' => Token::ParenR,
        '{' => Token::BraceL,
        '}' => Token::BraceR,
        '=' => Token::Equal,
        '>' => Token::Gt,
        '<' => Token::Lt,
        '+' => Token::Plus,
        '-' => Token::Minus,
        '*' => Token::Star,
        '/' => Token::Slash,
        _ => {
            proof {
                assert(false);
            }
            Token::Comma
        },
    }
}

/// The compound token a symbol extends to, as a runtime value.
pub fn compound_token(c: char) -> (t: Token)
    requires
        is_multi_start(c),
    ensures
        t@ == compound_symbol_token(c),
        is_atomic(t),
{
    match c {
        '=' => Token::EqualEqual,
        '>' => Token::GtEqual,
        '<' => Token::LtEqual,
        '+' => Token::PlusEqual,
        '-' => Token::MinusEqual,
        '*' => Token::StarEqual,
        '/' => Token::SlashEqual,
        _ => {
            proof {
                assert(false);
            }
            Token::EqualEqual
        },
    }
}

/// The accepting `=` child of a multi-character symbol root.
fn sym_child_node(c: char) -> (n: DfaNode)
    requires
        is_multi_start(c),
    ensures
        n.ch == '=',
        n.node_type == CharClass::MultiCharSymbol,
        n.childs@ =~= Seq::<usize>::empty(),
        n.could_be_end,
        n.token matches Some(t) && t@ == compound_symbol_token(c) && is_atomic(t),
        n.word@ == seq![c, '='],
        !n.ident,
    {
    let mut n = DfaNode::new();
    n.ch = '=';
    n.node_type = CharClass::MultiCharSymbol;
    n.could_be_end = true;
    n.token = Some(compound_token(c));
    let ghost w0: Seq<char> = seq![c, '='];
    n.word = Ghost(w0);
    n
}

/// A node on a keyword path.
fn trie_node(ch: char, token: Option<Token>, childs: Vec<usize>, word: Ghost<Seq<char>>) -> (n:
    DfaNode)
    ensures
        n.ch == ch,
        n.node_type == CharClass::IdentifierOrKeyword,
        n.childs@ == childs@,
        n.token == token,
        n.could_be_end == (token is Some),
        n.ident,
        n.word@ == word@,
{
    let accepting = token.is_some();
    DfaNode {
        ch,
        node_type: CharClass::IdentifierOrKeyword,
        childs,
        could_be_end: accepting,
        token,
        ident: true,
        symbol: false,
        line_end: false,
        space: false,
        num_int: false,
        num_float: false,
        num_hex: false,
        num_bin: false,
        is_delimit: false,
        word,
    }
}

impl DfaTable {
    /// Builds the 128 root nodes: every ASCII code classified, letters
    /// and digits flagged as continuation characters, symbols carrying
    /// their single-character tokens, whitespace flagged as delimiting.
    fn build_roots() -> (r: Vec<DfaNode>)
        ensures
            r@.len() == 128,
            forall|c: char|
                0 <= (c as int) && (c as int) < 128 ==> #[trigger] root_fields(r@, c),
            forall|k: int| 0 <= k < 128 ==> (#[trigger] r@[k].ch as int) == k,
    {
        let mut nodes: Vec<DfaNode> = Vec::new();
        let mut k: usize = 0;
        while k < ASCII_COUNT
            invariant
                k <= 128,
                nodes@.len() == k,
                forall|c: char|
                    0 <= (c as int) && (c as int) < k ==> #[trigger] root_fields(nodes@, c),
                forall|j: int| 0 <= j < k ==> (#[trigger] nodes@[j].ch as int) == j,
            decreases 128 - k,
        {
            let c = (k as u8) as char;
            let mut n = DfaNode::new();
            n.ch = c;
            let ghost w0: Seq<char> = seq![c];
            n.word = Ghost(w0);
            n.num_float = c == '.';
            n.num_hex = c == 'x';
            n.num_bin = c == 'b';
            if crate::classify::letter(c) {
                n.node_type = CharClass::IdentifierOrKeyword;
                n.ident = true;
                if c == 'f' {
                    n.childs = two_childs(135, 136);
                } else if c == 'i' {
                    n.childs = one_child(140);
                } else if c == 'l' {
                    n.childs = one_child(142);
                }
            } else if crate::classify::digit(c) {
                n.node_type = CharClass::NumericDigit;
                n.num_int = true;
            } else if c == ',' || c == '(' || c == ')' || c == '{' || c == '}' {
                n.node_type = CharClass::SingleCharSymbol;
                n.symbol = true;
                n.is_delimit = true;
                n.could_be_end = true;
                n.token = Some(single_token(c));
            } else if c == '=' || c == '>' || c == '<' || c == '+' || c == '-' || c == '*' || c
                == '/' {
                n.node_type = CharClass::MultiCharSymbol;
                n.symbol = true;
                n.is_delimit = true;
                n.could_be_end = true;
                n.token = Some(single_token(c));
                if c == '=' {
                    n.childs = one_child(128);
                } else if c == '>' {
                    n.childs = one_child(129);
                } else if c == '<' {
                    n.childs = one_child(130);
                } else if c == '+' {
                    n.childs = one_child(131);
                } else if c == '-' {
                    n.childs = one_child(132);
                } else if c == '*' {
                    n.childs = one_child(133);
                } else {
                    n.childs = one_child(134);
                }
            } else {
                if c == ' ' || c == '\t' || c == '\r' {
                    n.space = true;
                    n.is_delimit = true;
                } else if c == '\n' {
                    n.line_end = true;
                    n.is_delimit = true;
                }
            }
            proof {
                assert(root_childs(c) =~= n.childs@);
            }
            let ghost pre = nodes@;
            nodes.push(n);
            proof {
                assert forall|c2: char|
                    0 <= (c2 as int) && (c2 as int) < k + 1 implies #[trigger] root_fields(
                    nodes@,
                    c2,
                ) by {
                    if (c2 as int) < k {
                        assert(root_fields(pre, c2));
                        assert(nodes@[c2 as int] == pre[c2 as int]);
                    } else {
                        assert((c2 as int) == (c as int));
                        assert(c2 == c);
                        assert(nodes@[c2 as int] == n);
                        assert(root_fields(nodes@, c2));
                    }
                }
            }
            k = k + 1;
        }
        nodes
    }

    /// Builds the whole graph: the roots, then the compound-symbol
    /// children, then the keyword paths registered under `f`, `i` and
    /// `l`.
    pub fn build() -> (t: DfaTable)
        ensures
            t.built(),
    {
        let mut nodes = Self::build_roots();
        let ghost rs = nodes@;
        // compound symbols: `==`, `>=`, `<=`, `+=`, `-=`, `*=`, `/=`
        nodes.push(sym_child_node('='));  // 128
        nodes.push(sym_child_node('>'));  // 129
        nodes.push(sym_child_node('<'));  // 130
        nodes.push(sym_child_node('+'));  // 131
        nodes.push(sym_child_node('-'));  // 132
        nodes.push(sym_child_node('*'));  // 133
        nodes.push(sym_child_node('/'));  // 134
        // keyword paths: fn, float, int, let
        let ghost w_fn: Seq<char> = seq!['f', 'n'];
        let ghost w_fl: Seq<char> = seq!['f', 'l'];
        let ghost w_flo: Seq<char> = seq!['f', 'l', 'o'];
        let ghost w_floa: Seq<char> = seq!['f', 'l', 'o', 'a'];
        let ghost w_float: Seq<char> = seq!['f', 'l', 'o', 'a', 't'];
        let ghost w_in: Seq<char> = seq!['i', 'n'];
        let ghost w_int: Seq<char> = seq!['i', 'n', 't'];
        let ghost w_le: Seq<char> = seq!['l', 'e'];
        let ghost w_let: Seq<char> = seq!['l', 'e', 't'];
        nodes.push(trie_node('n', Some(Token::KwFn), Vec::new(), Ghost(w_fn)));  // 135
        nodes.push(trie_node('l', None, one_child(137), Ghost(w_fl)));  // 136
        nodes.push(trie_node('o', None, one_child(138), Ghost(w_flo)));  // 137
        nodes.push(trie_node('a', None, one_child(139), Ghost(w_floa)));  // 138
        nodes.push(trie_node('t', Some(Token::KwFloat), Vec::new(), Ghost(w_float)));  // 139
        nodes.push(trie_node('n', None, one_child(141), Ghost(w_in)));  // 140
        nodes.push(trie_node('t', Some(Token::KwInt), Vec::new(), Ghost(w_int)));  // 141
        nodes.push(trie_node('e', None, one_child(143), Ghost(w_le)));  // 142
        nodes.push(trie_node('t', Some(Token::KwLet), Vec::new(), Ghost(w_let)));  // 143
        let t = DfaTable { nodes };
        proof {
            assert forall|c: char|
                0 <= (c as int) && (c as int) < 128 implies #[trigger] root_fields(
                t.nodes@,
                c,
            ) by {
                assert(root_fields(rs, c));
                assert(t.nodes@[c as int] == rs[c as int]);
            }
            assert forall|k: int| 0 <= k < 128 implies (#[trigger] t.nodes@[k].ch as int) == k by {
                assert(t.nodes@[k] == rs[k]);
            }
            lemma_build_ok(t);
        }
        t
    }
}

/// Establishes [`DfaTable::built`] for the graph as `build` lays it out.
proof fn lemma_build_ok(t: DfaTable)
    requires
        t.nodes@.len() == NODE_COUNT,
        forall|c: char| 0 <= (c as int) && (c as int) < 128 ==> #[trigger] root_fields(t.nodes@, c),
        forall|k: int| 0 <= k < 128 ==> (#[trigger] t.nodes@[k].ch as int) == k,
        sym_child_ok(t.nodes@, 128, '='),
        sym_child_ok(t.nodes@, 129, '>'),
        sym_child_ok(t.nodes@, 130, '<'),
        sym_child_ok(t.nodes@, 131, '+'),
        sym_child_ok(t.nodes@, 132, '-'),
        sym_child_ok(t.nodes@, 133, '*'),
        sym_child_ok(t.nodes@, 134, '/'),
        trie_node_is(t.nodes@, 135, 'n', Some(TokenModel::KwFn), Seq::empty(), seq!['f', 'n']),
        trie_node_is(t.nodes@, 136, 'l', None, seq![137usize], seq!['f', 'l']),
        trie_node_is(t.nodes@, 137, 'o', None, seq![138usize], seq!['f', 'l', 'o']),
        trie_node_is(t.nodes@, 138, 'a', None, seq![139usize], seq!['f', 'l', 'o', 'a']),
        trie_node_is(
            t.nodes@,
            139,
            't',
            Some(TokenModel::KwFloat),
            Seq::empty(),
            seq!['f', 'l', 'o', 'a', 't'],
        ),
        trie_node_is(t.nodes@, 140, 'n', None, seq![141usize], seq!['i', 'n']),
        trie_node_is(t.nodes@, 141, 't', Some(TokenModel::KwInt), Seq::empty(), seq!['i', 'n', 't']),
        trie_node_is(t.nodes@, 142, 'e', None, seq![143usize], seq!['l', 'e']),
        trie_node_is(t.nodes@, 143, 't', Some(TokenModel::KwLet), Seq::empty(), seq!['l', 'e', 't']),
    ensures
        t.built(),
{
    let ns = t.nodes@;
    assert forall|c: char|
        0 <= (c as int) && (c as int) < 128 && is_multi_start(c) implies sym_child_ok(
        ns,
        #[trigger] root_childs(c)[0] as int,
        c,
    ) by {
        if c == '=' {
        } else if c == '>' {
        } else if c == '<' {
        } else if c == '+' {
        } else if c == '-' {
        } else {
        }
    }
    assert forall|i: int|
        0 <= i < ns.len() && (#[trigger] ns[i].node_type)
            == CharClass::IdentifierOrKeyword implies trie_ok(ns, i) by {
        lemma_trie_ok_at(t, i);
    }
}

/// What `TokenModel` value a trie node's token carries, if any.
pub open spec fn trie_node_is(
    ns: Seq<DfaNode>,
    i: int,
    ch: char,
    tok: Option<crate::token::TokenModel>,
    childs: Seq<usize>,
    word: Seq<char>,
) -> bool {
    let n = ns[i];
    &&& n.ch == ch
    &&& n.node_type == CharClass::IdentifierOrKeyword
    &&& n.childs@ == childs
    &&& (match n.token {
        Some(t) => tok == Some(t@) && is_atomic(t) && token_text(t@) == word,
        None => tok is None,
    })
    &&& n.could_be_end == (tok is Some)
    &&& n.ident
    &&& n.word@ == word
}

/// Establishes the keyword-path facts for one identifier-class node.
proof fn lemma_trie_ok_at(t: DfaTable, i: int)
    requires
        t.nodes@.len() == NODE_COUNT,
        forall|c: char| 0 <= (c as int) && (c as int) < 128 ==> #[trigger] root_fields(t.nodes@, c),
        forall|k: int| 0 <= k < 128 ==> (#[trigger] t.nodes@[k].ch as int) == k,
        sym_child_ok(t.nodes@, 128, '='),
        sym_child_ok(t.nodes@, 129, '>'),
        sym_child_ok(t.nodes@, 130, '<'),
        sym_child_ok(t.nodes@, 131, '+'),
        sym_child_ok(t.nodes@, 132, '-'),
        sym_child_ok(t.nodes@, 133, '*'),
        sym_child_ok(t.nodes@, 134, '/'),
        trie_node_is(t.nodes@, 135, 'n', Some(TokenModel::KwFn), Seq::empty(), seq!['f', 'n']),
        trie_node_is(t.nodes@, 136, 'l', None, seq![137usize], seq!['f', 'l']),
        trie_node_is(t.nodes@, 137, 'o', None, seq![138usize], seq!['f', 'l', 'o']),
        trie_node_is(t.nodes@, 138, 'a', None, seq![139usize], seq!['f', 'l', 'o', 'a']),
        trie_node_is(
            t.nodes@,
            139,
            't',
            Some(TokenModel::KwFloat),
            Seq::empty(),
            seq!['f', 'l', 'o', 'a', 't'],
        ),
        trie_node_is(t.nodes@, 140, 'n', None, seq![141usize], seq!['i', 'n']),
        trie_node_is(t.nodes@, 141, 't', Some(TokenModel::KwInt), Seq::empty(), seq!['i', 'n', 't']),
        trie_node_is(t.nodes@, 142, 'e', None, seq![143usize], seq!['l', 'e']),
        trie_node_is(t.nodes@, 143, 't', Some(TokenModel::KwLet), Seq::empty(), seq!['l', 'e', 't']),
        0 <= i < t.nodes@.len(),
        t.nodes@[i].node_type == CharClass::IdentifierOrKeyword,
    ensures
        trie_ok(t.nodes@, i),
{
    let ns = t.nodes@;
    let n = ns[i];
    if i < 128 {
        let c = n.ch;
        assert(root_fields(ns, c));
        assert(n.word@ == seq![c]);
        assert(is_letter(c));
        assert(kw_token(seq![c]) is None);
        assert forall|d: char| is_letter(d) implies (#[trigger] has_child_for(ns, i, d)
            <==> is_kw_prefix(n.word@.push(d))) by {
            assert(n.word@.push(d) =~= seq![c, d]);
            if c == 'f' {
                assert(ns[i].childs@[0] == 135usize);
                assert(ns[i].childs@[1] == 136usize);
                if d == 'n' || d == 'l' {
                    assert(has_child_for(ns, i, d));
                    if d == 'n' {
                        assert(seq![c, d].is_prefix_of(seq!['f', 'n']));
                    } else {
                        assert(seq![c, d].is_prefix_of(seq!['f', 'l', 'o', 'a', 't']));
                    }
                } else {
                    assert(!has_child_for(ns, i, d));
                    assert(!is_kw_prefix(seq![c, d]));
                }
            } else if c == 'i' {
                assert(ns[i].childs@[0] == 140usize);
                if d == 'n' {
                    assert(has_child_for(ns, i, d));
                    assert(seq![c, d].is_prefix_of(seq!['i', 'n', 't']));
                } else {
                    assert(!has_child_for(ns, i, d));
                    assert(!is_kw_prefix(seq![c, d]));
                }
            } else if c == 'l' {
                assert(ns[i].childs@[0] == 142usize);
                if d == 'e' {
                    assert(has_child_for(ns, i, d));
                    assert(seq![c, d].is_prefix_of(seq!['l', 'e', 't']));
                } else {
                    assert(!has_child_for(ns, i, d));
                    assert(!is_kw_prefix(seq![c, d]));
                }
            } else {
                assert(n.childs@.len() == 0);
                assert(!has_child_for(ns, i, d));
                assert(!is_kw_prefix(seq![c, d]));
            }
        }
        assert forall|j: int| 0 <= j < n.childs@.len() implies #[trigger] trie_child_ok(
            ns,
            i,
            j,
        ) by {
            if c == 'f' {
                if j == 0 {
                    assert(ns[135].word@ =~= seq!['f'].push('n'));
                } else {
                    assert(ns[136].word@ =~= seq!['f'].push('l'));
                }
            } else if c == 'i' {
                assert(ns[140].word@ =~= seq!['i'].push('n'));
            } else if c == 'l' {
                assert(ns[142].word@ =~= seq!['l'].push('e'));
            }
        }
    } else {
        lemma_trie_ok_inner(t, i);
    }
}

/// Establishes the keyword-path facts for the nine inner nodes.
proof fn lemma_trie_ok_inner(t: DfaTable, i: int)
    requires
        t.nodes@.len() == NODE_COUNT,
        sym_child_ok(t.nodes@, 128, '='),
        sym_child_ok(t.nodes@, 129, '>'),
        sym_child_ok(t.nodes@, 130, '<'),
        sym_child_ok(t.nodes@, 131, '+'),
        sym_child_ok(t.nodes@, 132, '-'),
        sym_child_ok(t.nodes@, 133, '*'),
        sym_child_ok(t.nodes@, 134, '/'),
        trie_node_is(t.nodes@, 135, 'n', Some(TokenModel::KwFn), Seq::empty(), seq!['f', 'n']),
        trie_node_is(t.nodes@, 136, 'l', None, seq![137usize], seq!['f', 'l']),
        trie_node_is(t.nodes@, 137, 'o', None, seq![138usize], seq!['f', 'l', 'o']),
        trie_node_is(t.nodes@, 138, 'a', None, seq![139usize], seq!['f', 'l', 'o', 'a']),
        trie_node_is(
            t.nodes@,
            139,
            't',
            Some(TokenModel::KwFloat),
            Seq::empty(),
            seq!['f', 'l', 'o', 'a', 't'],
        ),
        trie_node_is(t.nodes@, 140, 'n', None, seq![141usize], seq!['i', 'n']),
        trie_node_is(t.nodes@, 141, 't', Some(TokenModel::KwInt), Seq::empty(), seq!['i', 'n', 't']),
        trie_node_is(t.nodes@, 142, 'e', None, seq![143usize], seq!['l', 'e']),
        trie_node_is(t.nodes@, 143, 't', Some(TokenModel::KwLet), Seq::empty(), seq!['l', 'e', 't']),
        128 <= i < t.nodes@.len(),
        t.nodes@[i].node_type == CharClass::IdentifierOrKeyword,
    ensures
        trie_ok(t.nodes@, i),
{
    let ns = t.nodes@;
    let n = ns[i];
    assert(135 <= i < 144);
    assert forall|d: char| is_letter(d) implies (#[trigger] has_child_for(ns, i, d)
        <==> is_kw_prefix(n.word@.push(d))) by {
        if i == 136 {
            assert(ns[i].childs@[0] == 137usize);
            if d == 'o' {
                assert(has_child_for(ns, i, d));
                assert(n.word@.push(d) =~= seq!['f', 'l', 'o']);
                assert(seq!['f', 'l', 'o'].is_prefix_of(seq!['f', 'l', 'o', 'a', 't']));
            } else {
                assert(!has_child_for(ns, i, d));
                assert(n.word@.push(d) =~= seq!['f', 'l', d]);
                assert(!is_kw_prefix(seq!['f', 'l', d]));
            }
        } else if i == 137 {
            assert(ns[i].childs@[0] == 138usize);
            if d == 'a' {
                assert(has_child_for(ns, i, d));
                assert(n.word@.push(d) =~= seq!['f', 'l', 'o', 'a']);
                assert(seq!['f', 'l', 'o', 'a'].is_prefix_of(seq!['f', 'l', 'o', 'a', 't']));
            } else {
                assert(!has_child_for(ns, i, d));
                assert(n.word@.push(d) =~= seq!['f', 'l', 'o', d]);
                assert(!is_kw_prefix(seq!['f', 'l', 'o', d]));
            }
        } else if i == 138 {
            assert(ns[i].childs@[0] == 139usize);
            if d == 't' {
                assert(has_child_for(ns, i, d));
                assert(n.word@.push(d) =~= seq!['f', 'l', 'o', 'a', 't']);
                assert(seq!['f', 'l', 'o', 'a', 't'].is_prefix_of(seq!['f', 'l', 'o', 'a', 't']));
            } else {
                assert(!has_child_for(ns, i, d));
                assert(n.word@.push(d) =~= seq!['f', 'l', 'o', 'a', d]);
                assert(!is_kw_prefix(seq!['f', 'l', 'o', 'a', d]));
            }
        } else if i == 140 {
            assert(ns[i].childs@[0] == 141usize);
            if d == 't' {
                assert(has_child_for(ns, i, d));
                assert(n.word@.push(d) =~= seq!['i', 'n', 't']);
                assert(seq!['i', 'n', 't'].is_prefix_of(seq!['i', 'n', 't']));
            } else {
                assert(!has_child_for(ns, i, d));
                assert(n.word@.push(d) =~= seq!['i', 'n', d]);
                assert(!is_kw_prefix(seq!['i', 'n', d]));
            }
        } else if i == 142 {
            assert(ns[i].childs@[0] == 143usize);
            if d == 't' {
                assert(has_child_for(ns, i, d));
                assert(n.word@.push(d) =~= seq!['l', 'e', 't']);
                assert(seq!['l', 'e', 't'].is_prefix_of(seq!['l', 'e', 't']));
            } else {
                assert(!has_child_for(ns, i, d));
                assert(n.word@.push(d) =~= seq!['l', 'e', d]);
                assert(!is_kw_prefix(seq!['l', 'e', d]));
            }
        } else {
            assert(n.childs@.len() == 0);
            assert(!has_child_for(ns, i, d));
            if i == 135 {
                assert(n.word@.push(d) =~= seq!['f', 'n', d]);
                assert(!is_kw_prefix(seq!['f', 'n', d]));
            } else if i == 139 {
                assert(n.word@.push(d) =~= seq!['f', 'l', 'o', 'a', 't', d]);
                assert(!is_kw_prefix(seq!['f', 'l', 'o', 'a', 't', d]));
            } else if i == 141 {
                assert(n.word@.push(d) =~= seq!['i', 'n', 't', d]);
                assert(!is_kw_prefix(seq!['i', 'n', 't', d]));
            } else {
                assert(n.word@.push(d) =~= seq!['l', 'e', 't', d]);
                assert(!is_kw_prefix(seq!['l', 'e', 't', d]));
            }
        }
    }
    assert forall|j: int| 0 <= j < n.childs@.len() implies #[trigger] trie_child_ok(ns, i, j) by {
        if i == 136 {
            assert(ns[137].word@ =~= ns[136].word@.push('o'));
        } else if i == 137 {
            assert(ns[138].word@ =~= ns[137].word@.push('a'));
        } else if i == 138 {
            assert(ns[139].word@ =~= ns[138].word@.push('t'));
        } else if i == 140 {
            assert(ns[141].word@ =~= ns[140].word@.push('t'));
        } else if i == 142 {
            assert(ns[143].word@ =~= ns[142].word@.push('t'));
        }
    }
}

} // verus!
