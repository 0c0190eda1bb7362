//! The values the matcher compiler and the VM read from the compiler's
//! syntax trees: tokens, fragment kinds, matchers and the token cursor.
use vstd::prelude::*;

verus! {

/// A token of the macro input. Identifiers keep their interned name and
/// whether they are a module name; other tokens are known by an interned
/// code. `Eof` stands past the last token.
#[derive(Debug, Clone, Copy, PartialEq, Eq, Structural)]
pub enum Token {
    Eof,
    Ident(u64, bool),
    Other(u64),
}

/// The fragment a nonterminal `$name:kind` asks for.
#[derive(Debug, Clone, Copy, PartialEq, Eq, Structural)]
pub enum NtKind {
    Item,
    Block,
    Stmt,
    Pat,
    Expr,
    Ty,
    Ident,
    Path,
    Meta,
    Tt,
    Matchers,
    /// A kind name that no fragment parser answers to.
    Unknown,
}

/// The kind that a fragment name selects.
pub open spec fn nt_kind_of(name: Seq<char>) -> NtKind {
    if name == "item"@ {
        NtKind::Item
    } else if name == "block"@ {
        NtKind::Block
    } else if name == "stmt"@ {
        NtKind::Stmt
    } else if name == "pat"@ {
        NtKind::Pat
    } else if name == "expr"@ {
        NtKind::Expr
    } else if name == "ty"@ {
        NtKind::Ty
    } else if name == "ident"@ {
        NtKind::Ident
    } else if name == "path"@ {
        NtKind::Path
    } else if name == "meta"@ {
        NtKind::Meta
    } else if name == "tt"@ {
        NtKind::Tt
    } else if name == "matchers"@ {
        NtKind::Matchers
    } else {
        NtKind::Unknown
    }
}

impl NtKind {
    /// Selects the fragment kind by its name, as written after the colon of
    /// `$name:kind`.
    pub fn from_name(name: &str) -> (k: NtKind)
        ensures
            k == nt_kind_of(name@),
    {
        let s = String::from_str(name);
        if s == String::from_str("item") {
            NtKind::Item
        } else if s == String::from_str("block") {
            NtKind::Block
        } else if s == String::from_str("stmt") {
            NtKind::Stmt
        } else if s == String::from_str("pat") {
            NtKind::Pat
        } else if s == String::from_str("expr") {
            NtKind::Expr
        } else if s == String::from_str("ty") {
            NtKind::Ty
        } else if s == String::from_str("ident") {
            NtKind::Ident
        } else if s == String::from_str("path") {
            NtKind::Path
        } else if s == String::from_str("meta") {
            NtKind::Meta
        } else if s == String::from_str("tt") {
            NtKind::Tt
        } else if s == String::from_str("matchers") {
            NtKind::Matchers
        } else {
            NtKind::Unknown
        }
    }

    /// The row of this kind in a `FragmentParses` table.
    pub open spec fn spec_row(self) -> int {
        match self {
            NtKind::Item => 0,
            NtKind::Block => 1,
            NtKind::Stmt => 2,
            NtKind::Pat => 3,
            NtKind::Expr => 4,
            NtKind::Ty => 5,
            NtKind::Ident => 6,
            NtKind::Path => 7,
            NtKind::Meta => 8,
            NtKind::Tt => 9,
            NtKind::Matchers => 10,
            NtKind::Unknown => 11,
        }
    }

    /// The row of this kind in a `FragmentParses` table.
    pub fn row(&self) -> (r: usize)
        ensures
            r == self.spec_row(),
    {
        match self {
            NtKind::Item => 0,
            NtKind::Block => 1,
            NtKind::Stmt => 2,
            NtKind::Pat => 3,
            NtKind::Expr => 4,
            NtKind::Ty => 5,
            NtKind::Ident => 6,
            NtKind::Path => 7,
            NtKind::Meta => 8,
            NtKind::Tt => 9,
            NtKind::Matchers => 10,
            NtKind::Unknown => 11,
        }
    }
}

/// One matcher of a macro pattern: a literal token, a repeated sequence
/// (its body, separator, whether zero repetitions are allowed, and the
/// range of match slots it binds), or a nonterminal `$name:kind` with its
/// match slot.
#[derive(Debug)]
pub enum Matcher {
    MatchTok(Token),
    MatchSeq(Vec<Matcher>, Option<Token>, bool, usize, usize),
    MatchNonterminal(u64, NtKind, usize),
}

/// The token at position `p` of a stream: past the last token, `Eof`.
pub open spec fn token_at(tokens: Seq<Token>, p: int) -> Token {
    if 0 <= p < tokens.len() {
        tokens[p]
    } else {
        Token::Eof
    }
}

/// A cursor over the macro input: the tokens and the position of the
/// current one.
#[derive(Debug, Clone, PartialEq, Eq)]
pub struct TokenStream {
    pub tokens: Vec<Token>,
    pub pos: usize,
}

impl TokenStream {
    /// A cursor at the first token of `tokens`.
    pub fn new(tokens: Vec<Token>) -> (s: TokenStream)
        ensures
            s.tokens@ == tokens@,
            s.pos == 0,
    {
        TokenStream { tokens, pos: 0 }
    }

    /// The token at position `p`.
    pub fn token_at(&self, p: usize) -> (t: Token)
        ensures
            t == token_at(self.tokens@, p as int),
    {
        if p < self.tokens.len() {
            self.tokens[p]
        } else {
            Token::Eof
        }
    }

    /// The current token.
    pub fn token(&self) -> (t: Token)
        ensures
            t == token_at(self.tokens@, self.pos as int),
    {
        self.token_at(self.pos)
    }

    /// Moves to the next token; at the end of the input the cursor stays
    /// on `Eof`.
    pub fn bump(&mut self)
        ensures
            final(self).tokens@ == old(self).tokens@,
            final(self).pos == if old(self).pos < old(self).tokens@.len() {
                old(self).pos + 1
            } else {
                old(self).pos as int
            },
    {
        if self.pos < self.tokens.len() {
            self.pos = self.pos + 1;
        }
    }
}

/// What the compiler's fragment parsers make of the input: for each
/// fragment kind (by `NtKind::row`) and each start position, where the
/// cursor stands after parsing one such fragment, or `None` when no such
/// fragment starts there.
#[derive(Debug, Clone, PartialEq, Eq)]
pub struct FragmentParses {
    pub ends: Vec<Vec<Option<usize>>>,
}

/// The end of a fragment of kind `kind` parsed from position `p`, as the
/// table gives it; positions and kinds outside the table give `None`.
pub open spec fn fragment_end(fp: FragmentParses, kind: NtKind, p: int) -> Option<usize> {
    let row = kind.spec_row();
    if 0 <= row < fp.ends@.len() && 0 <= p < fp.ends@[row]@.len() {
        fp.ends@[row]@[p]
    } else {
        None
    }
}

impl FragmentParses {
    /// Every fragment end in the table lies within an input of `n` tokens.
    pub open spec fn wf(&self, n: nat) -> bool {
        forall|k: NtKind, p: int| #[trigger] fragment_end(*self, k, p) matches Some(q) ==> q <= n
    }

    /// Where a fragment of kind `kind` parsed from position `p` ends.
    pub fn end_of(&self, kind: NtKind, p: usize) -> (r: Option<usize>)
        ensures
            r == fragment_end(*self, kind, p as int),
    {
        let row = kind.row();
        if row < self.ends.len() && p < self.ends[row].len() {
            self.ends[row][p]
        } else {
            None
        }
    }
}

/// Where the cursor stands after parsing a fragment of kind `kind` from
/// position `p`, or `None` when none starts there: an identifier is the
/// current token if it is one; an expression needs a token before `Eof`;
/// an unknown kind never matches; the other kinds are as the fragment
/// parsers found them.
pub open spec fn parse_nt_spec(tokens: Seq<Token>, fp: FragmentParses, p: int, kind: NtKind) -> Option<usize> {
    match kind {
        NtKind::Ident => match token_at(tokens, p) {
            Token::Ident(_, _) => Some((p + 1) as usize),
            _ => None,
        },
        NtKind::Expr => if token_at(tokens, p) == Token::Eof {
            None
        } else {
            fragment_end(fp, kind, p)
        },
        NtKind::Unknown => None,
        _ => fragment_end(fp, kind, p),
    }
}

/// An `ident` fragment is exactly one identifier token, whether or not the
/// lexer marked it as a module name: parsing one at position `p` succeeds
/// exactly when the token there is an identifier, and then ends at `p + 1`.
pub proof fn lemma_ident_fragment(tokens: Seq<Token>, fp: FragmentParses, p: int)
    requires
        0 <= p,
    ensures
        forall|name: u64, module: bool|
            p < tokens.len() && tokens[p] == Token::Ident(name, module) ==> parse_nt_spec(tokens, fp, p, NtKind::Ident)
                == Some((p + 1) as usize),
        !(p < tokens.len() && tokens[p] is Ident) ==> parse_nt_spec(tokens, fp, p, NtKind::Ident) is None,
{
}

/// Parses one fragment of kind `kind` at position `p` of `parser`'s input,
/// returning where the cursor stands after it.
pub fn parse_nt(parser: &TokenStream, p: usize, kind: NtKind, fp: &FragmentParses) -> (r: Option<usize>)
    ensures
        r == parse_nt_spec(parser.tokens@, *fp, p as int, kind),
        kind == NtKind::Ident ==> match parser.tokens@[p as int] {
            Token::Ident(_, _) if p < parser.tokens@.len() => r == Some((p + 1) as usize),
            _ => r is None,
        },
{
    proof {
        lemma_ident_fragment(parser.tokens@, *fp, p as int);
    }
    let n = parser.tokens.len();
    match kind {
        NtKind::Ident => match parser.token_at(p) {
            Token::Ident(_, _) => {
                assert(p < n);
                Some(p + 1)
            },
            _ => None,
        },
        NtKind::Expr => {
            if parser.token_at(p) != Token::Eof {
                fp.end_of(kind, p)
            } else {
                None
            }
        },
        NtKind::Unknown => None,
        _ => fp.end_of(kind, p),
    }
}

} // verus!
