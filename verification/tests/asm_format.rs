use macro_plugins::asm_format::arguments::{
    apply_option, classify_argument, clobbers_string, expand_call, read_operands, ArgForm, ArgHead, Lookahead, OperandSyntax,
};
use macro_plugins::asm_format::operands::{
    expand_asm_format, fetch_idx, find_abort, Alignment, Argument, AsmPiece, Context, Count, Dialect, Failure,
    FormatSpec, Piece, Position, Site,
};
use macro_plugins::asm_format::text::{concat2, concat3, push_decimal, to_decimal};

fn s(x: &str) -> String {
    x.to_string()
}

fn text(x: &str) -> Piece {
    Piece::Str(s(x))
}

fn spec(align: Alignment, ty: &str) -> FormatSpec {
    FormatSpec {
        fill: None,
        align,
        flags: 0,
        precision: Count::CountImplied,
        width: Count::CountImplied,
        ty: s(ty),
    }
}

fn placeholder(position: Position, align: Alignment, ty: &str) -> Piece {
    Piece::Argument(Argument { position, format: spec(align, ty) })
}

#[test]
fn decimal_text() {
    assert_eq!(to_decimal(0), "0");
    assert_eq!(to_decimal(7), "7");
    assert_eq!(to_decimal(10), "10");
    assert_eq!(to_decimal(1234), "1234");
    let mut out = s("$");
    push_decimal(&mut out, 42);
    assert_eq!(out, "$42");
    assert_eq!(concat2("=", "r"), "=r");
    assert_eq!(concat3("a", "b", "c"), "abc");
}

#[test]
fn fetch_idx_finds_or_appends() {
    let mut slots: Vec<(usize, String)> = Vec::new();
    assert_eq!(fetch_idx(&mut slots, (0, s("r"))), 0);
    assert_eq!(fetch_idx(&mut slots, (1, s("r"))), 1);
    assert_eq!(fetch_idx(&mut slots, (0, s("m"))), 2);
    assert_eq!(fetch_idx(&mut slots, (0, s("r"))), 0);
    assert_eq!(fetch_idx(&mut slots, (1, s("r"))), 1);
    assert_eq!(slots, vec![(0, s("r")), (1, s("r")), (0, s("m"))]);
}

#[test]
fn fetch_idx_gives_the_first_occurrence() {
    let mut slots: Vec<(usize, String)> = vec![(3, s("r")), (3, s("r"))];
    assert_eq!(fetch_idx(&mut slots, (3, s("r"))), 0);
    assert_eq!(slots.len(), 2);
}

#[test]
fn a_new_context_is_empty() {
    let cx = Context::new();
    assert_eq!(cx.asm_str, "");
    assert_eq!(cx.expr.template, "");
    assert_eq!(cx.expr.clobbers, "");
    assert!(cx.expr.inputs.is_empty() && cx.expr.outputs.is_empty());
    assert!(!cx.expr.volatile && !cx.expr.alignstack);
    assert_eq!(cx.expr.dialect, Dialect::AsmAtt);
    assert!(!cx.dummy);
    assert!(cx.errors.is_empty() && cx.args.is_empty() && cx.names.is_empty());
    assert!(cx.arg_outputs.is_empty() && cx.arg_inputs.is_empty());
    assert_eq!(cx.next_argument, 0);
}

#[test]
fn option_words() {
    let mut cx = Context::new();
    let mut clobs: Vec<String> = Vec::new();
    apply_option(&mut cx, &mut clobs, "volatile");
    assert!(cx.expr.volatile);
    apply_option(&mut cx, &mut clobs, "alignstack");
    assert!(cx.expr.alignstack);
    assert_eq!(cx.expr.dialect, Dialect::AsmAtt);
    apply_option(&mut cx, &mut clobs, "intel");
    assert_eq!(cx.expr.dialect, Dialect::AsmIntel);
    assert!(clobs.is_empty());
    apply_option(&mut cx, &mut clobs, "rax");
    apply_option(&mut cx, &mut clobs, "memory");
    assert_eq!(clobs, vec![s("rax"), s("memory")]);
    cx.set_clobbers(&clobs);
    assert_eq!(cx.expr.clobbers, "~{rax},~{memory}");
}

#[test]
fn clobber_lists() {
    assert_eq!(clobbers_string(&Vec::new()), "~{}");
    assert_eq!(clobbers_string(&vec![s("rax")]), "~{rax}");
    assert_eq!(clobbers_string(&vec![s("rax"), s("rbx"), s("cc")]), "~{rax},~{rbx},~{cc}");
}

#[test]
fn classifying_operands() {
    let mut named = false;
    let f = classify_argument(&mut named, &ArgHead { string: None, next: Lookahead::Other });
    assert!(matches!(f, ArgForm::Positional));
    assert!(!named);
    let f = classify_argument(&mut named, &ArgHead { string: None, next: Lookahead::Ident(s("x"), false) });
    assert!(matches!(f, ArgForm::Positional));
    assert!(!named);
    let f = classify_argument(&mut named, &ArgHead { string: Some(s("r")), next: Lookahead::Other });
    assert!(matches!(f, ArgForm::Positional));
    assert!(!named);
    let f = classify_argument(&mut named, &ArgHead { string: None, next: Lookahead::Ident(s("n"), true) });
    assert!(matches!(f, ArgForm::Named(ref n) if n == "n"));
    assert!(named);
    let f = classify_argument(&mut named, &ArgHead { string: None, next: Lookahead::Ident(s("m"), false) });
    assert!(matches!(f, ArgForm::Named(ref n) if n == "m"));
    let f = classify_argument(&mut named, &ArgHead { string: Some(s("{rbx}")), next: Lookahead::Other });
    assert!(matches!(f, ArgForm::Explicit(ref c) if c == "{rbx}"));
    let f = classify_argument(&mut named, &ArgHead { string: None, next: Lookahead::Other });
    assert!(matches!(f, ArgForm::PositionalAfterNamed));
    assert!(named);
}

#[test]
fn an_explicit_constraint_starts_named_operands() {
    let mut named = false;
    let f = classify_argument(&mut named, &ArgHead { string: Some(s("{rbx}")), next: Lookahead::Eq });
    assert!(matches!(f, ArgForm::Explicit(ref c) if c == "{rbx}"));
    assert!(named);
}

#[test]
fn operands_of_each_form() {
    let mut cx = Context::new();
    cx.push_explicit(&s("{rbx}"), 3, None);
    cx.push_explicit(&s("{rcx}"), 4, Some(5));
    assert_eq!(cx.expr.inputs, vec![(s("{rbx}"), 3), (s("{rcx}"), 4)]);
    assert_eq!(cx.expr.outputs, vec![(s("={rcx}"), 5)]);
    cx.push_argument(10, None);
    assert!(!cx.duplicate_name(&s("n"), 11));
    cx.add_named(&s("n"), 11, Some(12));
    assert_eq!(cx.args, vec![(10, None, None), (11, Some(12), None)]);
    assert_eq!(cx.names, vec![(s("n"), 1)]);
    assert!(cx.errors.is_empty());
}

#[test]
fn a_duplicate_name_is_reported_with_a_note() {
    let mut cx = Context::new();
    cx.add_named(&s("n"), 11, None);
    assert!(cx.duplicate_name(&s("n"), 20));
    assert_eq!(cx.args.len(), 1);
    assert_eq!(cx.errors.len(), 2);
    assert_eq!(cx.errors[0].site, Site::Expr(20));
    assert_eq!(cx.errors[0].message, "duplicate argument named `n`");
    assert!(!cx.errors[0].note);
    assert_eq!(cx.errors[1].site, Site::Expr(11));
    assert_eq!(cx.errors[1].message, "previously here");
    assert!(cx.errors[1].note);
    assert!(!cx.dummy);
}

#[test]
fn giving_up_on_the_operands() {
    let x = Context::new().expected_comma();
    assert!(x.result.is_none());
    assert_eq!(x.errors.len(), 1);
    assert_eq!(x.errors[0].site, Site::Macro);
    assert_eq!(x.errors[0].message, "expected token: `,`");
    let x = Context::new().positional_after_named();
    assert!(x.result.is_none());
    assert_eq!(x.errors[0].site, Site::Current);
    assert_eq!(
        x.errors[0].message,
        "expected ident, positional arguments cannot follow named arguments"
    );
    let x = Context::new().abandon(Site::Template, s("inline assembly must be a string literal."));
    assert!(x.result.is_none());
    assert_eq!(x.errors[0].site, Site::Template);
}

/// The operands of `asm_format!(volatile, rax, "...", n = 7 -> c, "{rbx}" = b)`,
/// with the expressions 7, c and b given as handles 1, 2 and 3.
fn sample_context() -> Context {
    let mut cx = Context::new();
    let mut clobs: Vec<String> = Vec::new();
    apply_option(&mut cx, &mut clobs, "volatile");
    apply_option(&mut cx, &mut clobs, "rax");
    cx.set_clobbers(&clobs);
    let mut named = false;
    match classify_argument(&mut named, &ArgHead { string: None, next: Lookahead::Ident(s("n"), true) }) {
        ArgForm::Named(name) => {
            assert!(!cx.duplicate_name(&name, 1));
            cx.add_named(&name, 1, Some(2));
        }
        _ => panic!("expected a named operand"),
    }
    match classify_argument(&mut named, &ArgHead { string: Some(s("{rbx}")), next: Lookahead::Eq }) {
        ArgForm::Explicit(c) => cx.push_explicit(&c, 3, None),
        _ => panic!("expected an explicit operand"),
    }
    cx
}

#[test]
fn expands_the_sample_call() {
    let cx = sample_context();
    let pieces = vec![
        text("add "),
        placeholder(Position::ArgumentIs(0), Alignment::AlignUnknown, "r"),
        text(", "),
        placeholder(Position::ArgumentNamed(s("n")), Alignment::AlignLeft, "r"),
        text(";\n add %rbx, "),
        placeholder(Position::ArgumentNamed(s("n")), Alignment::AlignLeft, "r"),
    ];
    let x = expand_asm_format(cx, &pieces, &None);
    assert!(x.errors.is_empty());
    let a = x.result.unwrap();
    assert_eq!(a.template, "add $2, $0;\n add %rbx, $0");
    assert_eq!(a.clobbers, "~{rax}");
    assert_eq!(a.outputs, vec![(s("=r"), 2)]);
    assert_eq!(a.inputs, vec![(s("{rbx}"), 3), (s("0"), 1)]);
    assert!(a.volatile);
    assert!(!a.alignstack);
    assert_eq!(a.dialect, Dialect::AsmAtt);
}

#[test]
fn next_argument_placeholders_take_the_operands_in_turn() {
    let mut cx = Context::new();
    cx.push_argument(10, None);
    cx.push_argument(11, None);
    let pieces = vec![
        text("mov "),
        placeholder(Position::ArgumentNext, Alignment::AlignUnknown, "r"),
        text(", "),
        placeholder(Position::ArgumentNext, Alignment::AlignLeft, "m"),
    ];
    let x = expand_asm_format(cx, &pieces, &None);
    let a = x.result.unwrap();
    assert_eq!(a.template, "mov $1, $0");
    assert_eq!(a.outputs, vec![(s("=m"), 11)]);
    assert_eq!(a.inputs, vec![(s("r"), 10)]);
}

#[test]
fn an_output_operand_without_an_arrow_writes_its_expression() {
    let mut cx = Context::new();
    cx.push_argument(10, None);
    let pieces = vec![placeholder(Position::ArgumentIs(0), Alignment::AlignLeft, "r")];
    let a = expand_asm_format(cx, &pieces, &None).result.unwrap();
    assert_eq!(a.template, "$0");
    assert_eq!(a.outputs, vec![(s("=r"), 10)]);
    assert!(a.inputs.is_empty());
}

#[test]
fn translating_pieces_one_by_one() {
    let mut cx = Context::new();
    cx.push_argument(10, None);
    let p = cx.trans_piece(&placeholder(Position::ArgumentIs(0), Alignment::AlignLeft, "r"));
    assert!(matches!(p, AsmPiece::Output(0)));
    let p = cx.trans_piece(&placeholder(Position::ArgumentIs(0), Alignment::AlignUnknown, "r"));
    assert!(matches!(p, AsmPiece::Input(0)));
    let p = cx.trans_piece(&text("nop"));
    assert!(matches!(p, AsmPiece::Str(ref t) if t == "nop"));
    assert_eq!(cx.find_name(&s("x")), None);
}

#[test]
fn an_unknown_name_is_reported() {
    let cx = Context::new();
    let pieces = vec![text("inc "), placeholder(Position::ArgumentNamed(s("x")), Alignment::AlignUnknown, "r")];
    let x = expand_asm_format(cx, &pieces, &None);
    assert!(x.result.is_none());
    assert_eq!(x.errors.len(), 1);
    assert_eq!(x.errors[0].site, Site::Template);
    assert_eq!(x.errors[0].message, "there is no argument named `x`");
}

#[test]
fn a_format_error_is_reported() {
    let mut cx = Context::new();
    cx.push_argument(10, None);
    let pieces = vec![text("nop "), placeholder(Position::ArgumentIs(0), Alignment::AlignUnknown, "r")];
    let x = expand_asm_format(cx, &pieces, &Some(s("unmatched `{` found")));
    assert!(x.result.is_none());
    assert_eq!(x.errors.len(), 1);
    assert_eq!(x.errors[0].message, "invalid format string: unmatched `{` found");
}

#[test]
fn a_right_aligned_placeholder_fails() {
    let mut cx = Context::new();
    cx.push_argument(10, None);
    let pieces = vec![placeholder(Position::ArgumentIs(0), Alignment::AlignRight, "r")];
    assert_eq!(find_abort(&cx, &pieces), Some(Failure::InvalidAlign));
}

#[test]
fn a_placeholder_with_a_width_fails() {
    let mut cx = Context::new();
    cx.push_argument(10, None);
    let mut format = spec(Alignment::AlignUnknown, "r");
    format.width = Count::CountIs(4);
    let pieces = vec![Piece::Argument(Argument { position: Position::ArgumentIs(0), format })];
    assert_eq!(find_abort(&cx, &pieces), Some(Failure::MethodsNotImplemented));
}

#[test]
fn a_placeholder_past_the_operands_fails() {
    let mut cx = Context::new();
    cx.push_argument(10, None);
    let pieces = vec![placeholder(Position::ArgumentIs(3), Alignment::AlignUnknown, "r")];
    assert_eq!(find_abort(&cx, &pieces), Some(Failure::IndexOutOfBounds));
    let cx = Context::new();
    let pieces = vec![placeholder(Position::ArgumentNext, Alignment::AlignLeft, "r")];
    assert_eq!(find_abort(&cx, &pieces), Some(Failure::IndexOutOfBounds));
}

#[test]
fn a_template_without_placeholders_is_copied() {
    let mut cx = Context::new();
    let mut clobs: Vec<String> = Vec::new();
    apply_option(&mut cx, &mut clobs, "intel");
    cx.set_clobbers(&clobs);
    let x = expand_asm_format(cx, &vec![text("nop")], &None);
    let a = x.result.unwrap();
    assert_eq!(a.template, "nop");
    assert_eq!(a.clobbers, "~{}");
    assert_eq!(a.dialect, Dialect::AsmIntel);
}

/// Operand `m` in the numbering of `$m`: outputs first, then inputs.
fn operand(outputs: &Vec<(String, u64)>, inputs: &Vec<(String, u64)>, m: usize) -> (String, u64) {
    if m < outputs.len() { outputs[m].clone() } else { inputs[m - outputs.len()].clone() }
}

#[test]
fn template_numbers_name_the_requested_operands() {
    let mut cx = Context::new();
    cx.push_explicit(&s("{rcx}"), 40, Some(41));
    cx.push_argument(10, None);
    cx.push_argument(11, Some(12));
    let pieces = vec![
        placeholder(Position::ArgumentIs(1), Alignment::AlignLeft, "r"),
        text(" "),
        placeholder(Position::ArgumentIs(0), Alignment::AlignUnknown, "m"),
        text(" "),
        placeholder(Position::ArgumentIs(1), Alignment::AlignUnknown, "r"),
        text(" "),
        placeholder(Position::ArgumentIs(1), Alignment::AlignLeft, "r"),
    ];
    let a = expand_asm_format(cx, &pieces, &None).result.unwrap();
    assert_eq!(a.template, "$1 $3 $4 $1");
    assert_eq!(operand(&a.outputs, &a.inputs, 1), (s("=r"), 12));
    assert_eq!(operand(&a.outputs, &a.inputs, 3), (s("m"), 10));
    assert_eq!(operand(&a.outputs, &a.inputs, 4), (s("1"), 11));
    assert_eq!(operand(&a.outputs, &a.inputs, 0), (s("={rcx}"), 41));
    assert_eq!(operand(&a.outputs, &a.inputs, 2), (s("{rcx}"), 40));
}

#[test]
fn the_first_aborting_piece_decides() {
    let mut cx = Context::new();
    cx.push_argument(10, None);
    let mut format = spec(Alignment::AlignUnknown, "r");
    format.fill = Some('x');
    let pieces = vec![
        placeholder(Position::ArgumentIs(5), Alignment::AlignUnknown, "r"),
        placeholder(Position::ArgumentIs(0), Alignment::AlignCenter, "r"),
        Piece::Argument(Argument { position: Position::ArgumentIs(0), format }),
    ];
    assert_eq!(find_abort(&cx, &pieces), Some(Failure::InvalidAlign));
}

#[test]
fn an_unknown_name_aborts_nothing_whatever_its_alignment() {
    let cx = Context::new();
    let pieces = vec![placeholder(Position::ArgumentNamed(s("x")), Alignment::AlignRight, "r")];
    assert_eq!(find_abort(&cx, &pieces), None);
    let x = expand_asm_format(cx, &pieces, &None);
    assert!(x.result.is_none());
    assert_eq!(x.errors[0].message, "there is no argument named `x`");
}

#[test]
fn supported_pieces_abort_nothing() {
    let cx = sample_context();
    let pieces = vec![
        placeholder(Position::ArgumentIs(0), Alignment::AlignUnknown, "r"),
        placeholder(Position::ArgumentNamed(s("n")), Alignment::AlignLeft, "r"),
        placeholder(Position::ArgumentNext, Alignment::AlignUnknown, "r"),
    ];
    assert_eq!(find_abort(&cx, &pieces), None);
    let pieces = vec![
        placeholder(Position::ArgumentNext, Alignment::AlignUnknown, "r"),
        placeholder(Position::ArgumentNext, Alignment::AlignUnknown, "r"),
    ];
    assert_eq!(find_abort(&cx, &pieces), Some(Failure::IndexOutOfBounds));
}

fn op_syntax(comma_before: bool, string: Option<&str>, next: Lookahead, expr: u64, out: Option<u64>) -> OperandSyntax {
    OperandSyntax { comma_before, head: ArgHead { string: string.map(s), next }, expr, out }
}

#[test]
fn reading_the_operands_of_the_sample_call() {
    let ops = vec![
        op_syntax(true, None, Lookahead::Ident(s("n"), true), 1, Some(2)),
        op_syntax(true, Some("{rbx}"), Lookahead::Eq, 3, None),
    ];
    let cx = read_operands(Context::new(), &ops).unwrap();
    assert_eq!(cx.args, vec![(1, Some(2), None)]);
    assert_eq!(cx.names, vec![(s("n"), 0)]);
    assert_eq!(cx.expr.inputs, vec![(s("{rbx}"), 3)]);
    assert!(cx.expr.outputs.is_empty());
    assert!(cx.errors.is_empty());
}

#[test]
fn reading_positional_then_named_operands_with_a_duplicate() {
    let ops = vec![
        op_syntax(true, None, Lookahead::Other, 10, None),
        op_syntax(true, None, Lookahead::Ident(s("a"), true), 11, None),
        op_syntax(true, None, Lookahead::Ident(s("a"), true), 12, None),
        op_syntax(true, Some("r"), Lookahead::Eq, 14, Some(15)),
    ];
    let cx = read_operands(Context::new(), &ops).unwrap();
    assert_eq!(cx.args, vec![(10, None, None), (11, None, None)]);
    assert_eq!(cx.names, vec![(s("a"), 1)]);
    assert_eq!(cx.errors.len(), 2);
    assert_eq!(cx.errors[0].message, "duplicate argument named `a`");
    assert_eq!(cx.errors[1].site, Site::Expr(11));
    assert_eq!(cx.expr.outputs, vec![(s("=r"), 15)]);
}

#[test]
fn a_duplicate_with_an_output_stops_the_reading() {
    let ops = vec![
        op_syntax(true, None, Lookahead::Ident(s("a"), true), 11, None),
        op_syntax(true, None, Lookahead::Ident(s("a"), true), 12, Some(13)),
        op_syntax(true, Some("r"), Lookahead::Eq, 14, Some(15)),
    ];
    match read_operands(Context::new(), &ops) {
        Err(x) => {
            assert!(x.result.is_none());
            assert_eq!(x.errors.len(), 3);
            assert_eq!(x.errors[0].message, "duplicate argument named `a`");
            assert_eq!(x.errors[1].message, "previously here");
            assert_eq!(x.errors[2].message, "expected token: `,`");
        }
        Ok(_) => panic!("expected the reading to stop"),
    }
}

#[test]
fn reading_stops_at_a_missing_comma() {
    let ops = vec![op_syntax(true, None, Lookahead::Other, 10, None), op_syntax(false, None, Lookahead::Other, 11, None)];
    match read_operands(Context::new(), &ops) {
        Err(x) => {
            assert!(x.result.is_none());
            assert_eq!(x.errors.len(), 1);
            assert_eq!(x.errors[0].message, "expected token: `,`");
        }
        Ok(_) => panic!("expected the reading to stop"),
    }
}

#[test]
fn reading_stops_at_a_positional_after_named() {
    let ops = vec![
        op_syntax(true, None, Lookahead::Ident(s("a"), true), 11, None),
        op_syntax(true, None, Lookahead::Other, 12, None),
    ];
    match read_operands(Context::new(), &ops) {
        Err(x) => {
            assert!(x.result.is_none());
            assert_eq!(x.errors[0].site, Site::Current);
        }
        Ok(_) => panic!("expected the reading to stop"),
    }
}

#[test]
fn expanding_the_sample_call_from_its_parts() {
    let options = vec![s("volatile"), s("rax")];
    let ops = vec![
        op_syntax(true, None, Lookahead::Ident(s("n"), true), 1, Some(2)),
        op_syntax(true, Some("{rbx}"), Lookahead::Eq, 3, None),
    ];
    let pieces = vec![
        text("add "),
        placeholder(Position::ArgumentIs(0), Alignment::AlignUnknown, "r"),
        text(", "),
        placeholder(Position::ArgumentNamed(s("n")), Alignment::AlignLeft, "r"),
        text(";\n add %rbx, "),
        placeholder(Position::ArgumentNamed(s("n")), Alignment::AlignLeft, "r"),
    ];
    let x = expand_call(&options, &ops, &pieces, &None).unwrap();
    assert!(x.errors.is_empty());
    let a = x.result.unwrap();
    assert_eq!(a.template, "add $2, $0;\n add %rbx, $0");
    assert_eq!(a.clobbers, "~{rax}");
    assert_eq!(a.outputs, vec![(s("=r"), 2)]);
    assert_eq!(a.inputs, vec![(s("{rbx}"), 3), (s("0"), 1)]);
    assert!(a.volatile);
}

#[test]
fn a_call_that_gives_up_reading_has_no_assembly() {
    let ops = vec![op_syntax(false, None, Lookahead::Other, 10, None)];
    let x = expand_call(&Vec::new(), &ops, &vec![text("nop")], &None).unwrap();
    assert!(x.result.is_none());
    assert_eq!(x.errors[0].message, "expected token: `,`");
}

#[test]
fn a_call_whose_template_aborts() {
    let ops = vec![op_syntax(true, None, Lookahead::Other, 10, None)];
    let pieces = vec![placeholder(Position::ArgumentIs(0), Alignment::AlignRight, "r")];
    assert!(matches!(expand_call(&Vec::new(), &ops, &pieces, &None), Err(Failure::InvalidAlign)));
    let pieces = vec![placeholder(Position::ArgumentIs(1), Alignment::AlignLeft, "r")];
    assert!(matches!(expand_call(&Vec::new(), &ops, &pieces, &None), Err(Failure::IndexOutOfBounds)));
}
