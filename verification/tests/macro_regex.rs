use macro_plugins::macro_regex::nfa::{run, Nfa};
use macro_plugins::macro_regex::program::{Inst, Program};
use macro_plugins::macro_regex::syntax::{parse_nt, FragmentParses, Matcher, NtKind, Token, TokenStream};
use macro_plugins::macro_regex::threads::Threads;

// Interned codes of a few punctuation tokens.
const COLON: Token = Token::Other(1);
const LBRACE: Token = Token::Other(2);
const RBRACE: Token = Token::Other(3);
const POUND: Token = Token::Other(4);
const LBRACKET: Token = Token::Other(5);
const RBRACKET: Token = Token::Other(6);
const EQ: Token = Token::Other(7);
const FAT_ARROW: Token = Token::Other(8);
const DOLLAR: Token = Token::Other(9);

fn tok(t: Token) -> Matcher {
    Matcher::MatchTok(t)
}

fn nt(name: u64, kind: NtKind, slot: usize) -> Matcher {
    Matcher::MatchNonterminal(name, kind, slot)
}

fn no_fragments() -> FragmentParses {
    FragmentParses { ends: Vec::new() }
}

#[test]
fn compiles_a_token_and_a_nonterminal() {
    let prog = Program::new(vec![tok(Token::Ident(58, false)), nt(60, NtKind::Expr, 0)]);
    assert_eq!(
        prog.insts,
        vec![
            Inst::Save(0),
            Inst::OneTerminal(Token::Ident(58, false)),
            Inst::OneNonterminal(60, NtKind::Expr, 0),
            Inst::Save(1),
            Inst::Match,
        ]
    );
}

#[test]
fn compiles_the_nested_repetition_pattern() {
    // $a:ident : $b:ty { $( # [ $c:meta ] $a:ident $( = $d:expr )* )* }
    let inner = Matcher::MatchSeq(vec![tok(EQ), nt(68, NtKind::Expr, 4)], None, true, 4, 5);
    let outer = Matcher::MatchSeq(
        vec![tok(POUND), tok(LBRACKET), nt(65, NtKind::Meta, 2), tok(RBRACKET), nt(60, NtKind::Ident, 3), inner],
        None,
        true,
        2,
        5,
    );
    let ast = vec![
        nt(60, NtKind::Ident, 0),
        tok(COLON),
        nt(63, NtKind::Ty, 1),
        tok(LBRACE),
        outer,
        tok(RBRACE),
    ];
    let prog = Program::new(ast);
    assert_eq!(
        prog.insts,
        vec![
            Inst::Save(0),
            Inst::OneNonterminal(60, NtKind::Ident, 0),
            Inst::OneTerminal(COLON),
            Inst::OneNonterminal(63, NtKind::Ty, 1),
            Inst::OneTerminal(LBRACE),
            Inst::Split(6, 16),
            Inst::OneTerminal(POUND),
            Inst::OneTerminal(LBRACKET),
            Inst::OneNonterminal(65, NtKind::Meta, 2),
            Inst::OneTerminal(RBRACKET),
            Inst::OneNonterminal(60, NtKind::Ident, 3),
            Inst::Split(12, 15),
            Inst::OneTerminal(EQ),
            Inst::OneNonterminal(68, NtKind::Expr, 4),
            Inst::Jump(11),
            Inst::Jump(5),
            Inst::OneTerminal(RBRACE),
            Inst::Save(1),
            Inst::Match,
        ]
    );
    assert!(prog.is_wf());
}

#[test]
fn compiles_zero_or_more() {
    let prog = Program::new(vec![Matcher::MatchSeq(vec![tok(COLON)], None, true, 0, 0)]);
    assert_eq!(
        prog.insts,
        vec![Inst::Save(0), Inst::Split(2, 4), Inst::OneTerminal(COLON), Inst::Jump(1), Inst::Save(1), Inst::Match]
    );
}

#[test]
fn compiles_one_or_more() {
    let prog = Program::new(vec![Matcher::MatchSeq(vec![tok(COLON), tok(EQ)], Some(EQ), false, 0, 0)]);
    assert_eq!(
        prog.insts,
        vec![
            Inst::Save(0),
            Inst::OneTerminal(COLON),
            Inst::OneTerminal(EQ),
            Inst::Split(1, 4),
            Inst::Save(1),
            Inst::Match,
        ]
    );
}

#[test]
fn compiles_an_empty_pattern() {
    let prog = Program::new(Vec::new());
    assert_eq!(prog.insts, vec![Inst::Save(0), Inst::Save(1), Inst::Match]);
}

#[test]
fn well_formedness_of_programs() {
    assert!(Program { insts: vec![Inst::Match] }.is_wf());
    assert!(!Program { insts: Vec::new() }.is_wf());
    assert!(!Program { insts: vec![Inst::Jump(5), Inst::Match] }.is_wf());
    assert!(!Program { insts: vec![Inst::Match, Inst::OneTerminal(EQ)] }.is_wf());
    assert!(!Program { insts: vec![Inst::Split(0, 2), Inst::Match] }.is_wf());
    assert!(Program { insts: vec![Inst::Split(0, 1), Inst::Match] }.is_wf());
}

fn run_on(prog: &Program, tokens: Vec<Token>) -> (bool, TokenStream) {
    let mut input = TokenStream::new(tokens);
    let end = prog.insts.len();
    let matched = run(prog, &mut input, &no_fragments(), 0, end);
    (matched, input)
}

#[test]
fn run_matches_a_token() {
    let prog = Program::new(vec![tok(FAT_ARROW)]);
    let (matched, input) = run_on(&prog, vec![FAT_ARROW]);
    assert!(matched);
    assert_eq!(input.tokens, vec![FAT_ARROW]);
    assert_eq!(input.pos, 1);
}

#[test]
fn run_rejects_other_tokens() {
    let prog = Program::new(vec![tok(FAT_ARROW)]);
    let (matched, input) = run_on(&prog, vec![DOLLAR, Token::Ident(66, false)]);
    assert!(!matched);
    assert_eq!(input.tokens, vec![DOLLAR, Token::Ident(66, false)]);
    assert_eq!(input.pos, 2);
}

#[test]
fn run_finds_a_match_after_skipping_tokens() {
    let prog = Program::new(vec![tok(COLON), tok(EQ)]);
    let (matched, _) = run_on(&prog, vec![EQ, COLON, EQ]);
    assert!(matched);
    let (matched, _) = run_on(&prog, vec![COLON, COLON]);
    assert!(!matched);
}

#[test]
fn run_gives_up_after_end_steps() {
    let prog = Program::new(vec![tok(COLON)]);
    let mut input = TokenStream::new(vec![EQ, EQ, EQ, COLON]);
    assert!(!run(&prog, &mut input, &no_fragments(), 0, 2));
    let mut input = TokenStream::new(vec![EQ, EQ, EQ, COLON]);
    assert!(run(&prog, &mut input, &no_fragments(), 0, 5));
}

#[test]
fn run_matches_the_empty_repetition_at_once() {
    let prog = Program::new(vec![Matcher::MatchSeq(vec![tok(COLON)], None, true, 0, 0)]);
    let (matched, _) = run_on(&prog, Vec::new());
    assert!(matched);
}

#[test]
fn run_needs_one_repetition() {
    let prog = Program::new(vec![Matcher::MatchSeq(vec![tok(COLON)], None, false, 0, 0)]);
    let (matched, _) = run_on(&prog, vec![EQ]);
    assert!(!matched);
    let (matched, _) = run_on(&prog, vec![COLON, COLON]);
    assert!(matched);
}

#[test]
fn run_starts_from_the_cursor() {
    let prog = Program::new(vec![tok(COLON)]);
    let mut input = TokenStream::new(vec![COLON, EQ]);
    input.bump();
    assert!(!run(&prog, &mut input, &no_fragments(), 0, 1));
}

#[test]
fn run_with_an_identifier_fragment() {
    let prog = Program::new(vec![nt(1, NtKind::Ident, 0), tok(EQ)]);
    let (matched, _) = run_on(&prog, vec![Token::Ident(5, false), EQ]);
    assert!(matched);
}

#[test]
fn fragment_kinds_by_name() {
    assert_eq!(NtKind::from_name("item"), NtKind::Item);
    assert_eq!(NtKind::from_name("block"), NtKind::Block);
    assert_eq!(NtKind::from_name("stmt"), NtKind::Stmt);
    assert_eq!(NtKind::from_name("pat"), NtKind::Pat);
    assert_eq!(NtKind::from_name("expr"), NtKind::Expr);
    assert_eq!(NtKind::from_name("ty"), NtKind::Ty);
    assert_eq!(NtKind::from_name("ident"), NtKind::Ident);
    assert_eq!(NtKind::from_name("path"), NtKind::Path);
    assert_eq!(NtKind::from_name("meta"), NtKind::Meta);
    assert_eq!(NtKind::from_name("tt"), NtKind::Tt);
    assert_eq!(NtKind::from_name("matchers"), NtKind::Matchers);
    assert_eq!(NtKind::from_name("lifetime"), NtKind::Unknown);
    assert_eq!(NtKind::Item.row(), 0);
    assert_eq!(NtKind::Matchers.row(), 10);
    assert_eq!(NtKind::Unknown.row(), 11);
}

#[test]
fn token_stream_cursor() {
    let mut s = TokenStream::new(vec![COLON, EQ]);
    assert_eq!(s.token(), COLON);
    s.bump();
    assert_eq!(s.token(), EQ);
    s.bump();
    assert_eq!(s.token(), Token::Eof);
    s.bump();
    assert_eq!(s.pos, 2);
    assert_eq!(s.token_at(0), COLON);
    assert_eq!(s.token_at(7), Token::Eof);
}

#[test]
fn parse_fragments() {
    let s = TokenStream::new(vec![Token::Ident(3, false), COLON, EQ]);
    let mut rows: Vec<Vec<Option<usize>>> = Vec::new();
    for _ in 0..12 {
        rows.push(vec![None, None, None, None]);
    }
    rows[NtKind::Expr.row()][1] = Some(3);
    rows[NtKind::Ty.row()][0] = Some(2);
    rows[NtKind::Unknown.row()][0] = Some(1);
    let fp = FragmentParses { ends: rows };
    assert_eq!(parse_nt(&s, 0, NtKind::Ident, &fp), Some(1));
    assert_eq!(parse_nt(&s, 1, NtKind::Ident, &fp), None);
    assert_eq!(parse_nt(&s, 1, NtKind::Expr, &fp), Some(3));
    assert_eq!(parse_nt(&s, 3, NtKind::Expr, &fp), None);
    assert_eq!(parse_nt(&s, 0, NtKind::Ty, &fp), Some(2));
    assert_eq!(parse_nt(&s, 0, NtKind::Unknown, &fp), None);
    assert_eq!(fp.end_of(NtKind::Ty, 0), Some(2));
    assert_eq!(fp.end_of(NtKind::Ty, 9), None);
    assert_eq!(no_fragments().end_of(NtKind::Pat, 0), None);
}

#[test]
fn thread_set_operations() {
    let mut t = Threads::new(4, 0);
    assert_eq!(t.size(), 0);
    assert!(!t.contains(2));
    t.add(2, false);
    assert!(t.contains(2));
    assert!(!t.contains(1));
    assert_eq!(t.size(), 1);
    assert_eq!(t.pc(0), (2, None));
    t.add_with_parser(3, 7);
    assert_eq!(t.pc(1), (3, Some(7)));
    assert!(t.contains(3));
    t.empty();
    assert_eq!(t.size(), 0);
    assert!(!t.contains(2));
    assert!(!t.contains(3));
    t.add(0, true);
    assert_eq!(t.pc(0), (0, None));
    t.add(1, true);
    assert_eq!(t.pc(1), (1, Some(7)));
    t.set_parser(1, None);
    assert_eq!(t.pc(1), (1, None));
}

#[test]
fn a_longer_search_keeps_a_match() {
    let prog = Program::new(vec![tok(COLON)]);
    for end in 4..9 {
        let mut input = TokenStream::new(vec![EQ, EQ, EQ, COLON]);
        assert!(run(&prog, &mut input, &no_fragments(), 0, end));
    }
}

#[test]
fn threads_with_cursors_take_the_slots_plain_threads_would() {
    let prog = Program::new(vec![Matcher::MatchSeq(vec![tok(COLON)], None, true, 0, 0)]);
    let frags = no_fragments();
    let nfa = Nfa { prog: &prog, start: 0, end: 6, ic: 0, parser: TokenStream::new(vec![COLON]), frags: &frags };
    let mut plain = Threads::new(6, 0);
    nfa.add(&mut plain, 0);
    let mut with_cursor = Threads::new(6, 0);
    with_cursor.add(3, false);
    nfa.add_with_parser(&mut with_cursor, 0, 7);
    assert_eq!(plain.size(), 5);
    assert_eq!(with_cursor.size(), 6);
    let order: Vec<usize> = (0..5).map(|i| plain.pc(i).0).collect();
    assert_eq!(order, vec![0, 1, 2, 4, 5]);
    assert_eq!(with_cursor.pc(0), (3, None));
    let added: Vec<(usize, Option<usize>)> = (1..6).map(|i| with_cursor.pc(i)).collect();
    assert_eq!(added, vec![(0, Some(7)), (1, Some(7)), (2, Some(7)), (4, Some(7)), (5, Some(7))]);
}
