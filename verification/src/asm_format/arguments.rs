//! Reading the options and operands of `asm_format!`: the decisions taken
//! between the parser's steps.
use vstd::prelude::*;
use crate::asm_format::operands::{
    Context, ContextV, Diagnostic, DiagnosticV, Dialect, Expansion, Failure, InlineAsmV, Piece, PieceV, Site,
    context_wf, diag, diagnostics_view, empty_context, error_view, expand_asm_format, expand_spec,
    expansion_abort, find_abort, lookup_name, names_view, operands_view, pieces_view,
};
use crate::asm_format::text::{concat2, concat3};

verus! {

/// What an option word does: `volatile`, `alignstack` and `intel` set the
/// corresponding flag; any other word names a clobbered register.
pub open spec fn option_effect(c: ContextV, clobs: Seq<Seq<char>>, option: Seq<char>) -> (ContextV, Seq<Seq<char>>) {
    if option == "volatile"@ {
        (ContextV { expr: InlineAsmV { volatile: true, ..c.expr }, ..c }, clobs)
    } else if option == "alignstack"@ {
        (ContextV { expr: InlineAsmV { alignstack: true, ..c.expr }, ..c }, clobs)
    } else if option == "intel"@ {
        (ContextV { expr: InlineAsmV { dialect: Dialect::AsmIntel, ..c.expr }, ..c }, clobs)
    } else {
        (c, clobs.push(option))
    }
}

/// The views of a list of strings.
pub open spec fn strings_view(v: Seq<String>) -> Seq<Seq<char>> {
    v.map_values(|s: String| s@)
}

/// Applies one option word.
pub fn apply_option(cx: &mut Context, clobs: &mut Vec<String>, option: &str)
    ensures
        (final(cx)@, strings_view(final(clobs)@)) == option_effect(old(cx)@, strings_view(old(clobs)@), option@),
{
    let o = String::from_str(option);
    if o == String::from_str("volatile") {
        cx.expr.volatile = true;
    } else if o == String::from_str("alignstack") {
        cx.expr.alignstack = true;
    } else if o == String::from_str("intel") {
        cx.expr.dialect = Dialect::AsmIntel;
    } else {
        clobs.push(o);
        assert(strings_view(clobs@) =~= strings_view(old(clobs)@).push(option@));
    }
}

/// The strings joined by `sep`.
pub open spec fn join(strs: Seq<Seq<char>>, sep: Seq<char>) -> Seq<char>
    decreases strs.len(),
{
    if strs.len() == 0 {
        Seq::empty()
    } else if strs.len() == 1 {
        strs[0]
    } else {
        join(strs.drop_last(), sep) + sep + strs.last()
    }
}

/// The clobber list of the clobbered registers `r1`, `r2`, ...:
/// `~{r1},~{r2}`, and `~{}` when there is none.
pub open spec fn clobbers_text(clobs: Seq<Seq<char>>) -> Seq<char> {
    "~{"@ + join(clobs, "},~{"@) + "}"@
}

/// The clobber list of the clobbered registers.
pub fn clobbers_string(clobs: &Vec<String>) -> (s: String)
    ensures
        s@ == clobbers_text(strings_view(clobs@)),
{
    let ghost sv = strings_view(clobs@);
    let mut joined = String::new();
    let mut i: usize = 0;
    proof {
        assert(sv.take(0) =~= Seq::<Seq<char>>::empty());
    }
    while i < clobs.len()
        invariant
            sv == strings_view(clobs@),
            i <= clobs@.len(),
            joined@ == join(sv.take(i as int), "},~{"@),
        decreases clobs@.len() - i,
    {
        if i > 0 {
            joined.append("},~{");
        }
        joined.append(clobs[i].as_str());
        proof {
            assert(sv.take(i + 1).drop_last() =~= sv.take(i as int));
            if i == 0 {
                assert(joined@ =~= join(sv.take(1), "},~{"@));
            } else {
                assert(joined@ =~= join(sv.take(i + 1), "},~{"@));
            }
        }
        i += 1;
    }
    proof {
        assert(sv.take(clobs@.len() as int) =~= sv);
    }
    concat3("~{", joined.as_str(), "}")
}

impl Context {
    /// Sets the clobber list from the clobbered registers.
    pub fn set_clobbers(&mut self, clobs: &Vec<String>)
        ensures
            final(self)@ == (ContextV {
                expr: InlineAsmV { clobbers: clobbers_text(strings_view(clobs@)), ..old(self)@.expr },
                ..old(self)@
            }),
    {
        self.expr.clobbers = clobbers_string(clobs);
    }
}

/// The token after an operand's optional leading string: `=`, an
/// identifier (with whether `=` follows it), or another token.
#[derive(Debug)]
pub enum Lookahead {
    Eq,
    Ident(String, bool),
    Other,
}

/// The start of an operand as the parser sees it: the string literal it
/// begins with, if any (already read), and the token after it.
#[derive(Debug)]
pub struct ArgHead {
    pub string: Option<String>,
    pub next: Lookahead,
}

/// How to read an operand: with an explicit constraint (`"c" = expr`),
/// named (`name = expr`), positional (`expr`), or not at all, because a
/// positional operand follows named ones.
#[derive(Debug)]
pub enum ArgForm {
    Explicit(String),
    Named(String),
    Positional,
    PositionalAfterNamed,
}

pub enum ArgFormV {
    Explicit(Seq<char>),
    Named(Seq<char>),
    Positional,
    PositionalAfterNamed,
}

impl View for ArgForm {
    type V = ArgFormV;

    open spec fn view(&self) -> ArgFormV {
        match self {
            ArgForm::Explicit(s) => ArgFormV::Explicit(s@),
            ArgForm::Named(s) => ArgFormV::Named(s@),
            ArgForm::Positional => ArgFormV::Positional,
            ArgForm::PositionalAfterNamed => ArgFormV::PositionalAfterNamed,
        }
    }
}

/// Once a named operand or one with an explicit constraint was read, every
/// later operand is read as one of those: a string starts an operand with
/// an explicit constraint, an identifier a named one, and anything else is
/// rejected. Before that, an operand is named or explicit when `=` follows
/// its string or its identifier, and positional otherwise.
pub open spec fn classify_spec(named: bool, head: ArgHead) -> (ArgFormV, bool) {
    let starts_named = named || (head.string is Some && head.next is Eq) || (match head.next {
        Lookahead::Ident(_, eq) => eq,
        _ => false,
    });
    if starts_named {
        (
            match head.string {
                Some(s) => ArgFormV::Explicit(s@),
                None => match head.next {
                    Lookahead::Ident(name, _) => ArgFormV::Named(name@),
                    _ => ArgFormV::PositionalAfterNamed,
                },
            },
            true,
        )
    } else {
        (ArgFormV::Positional, named)
    }
}

/// Decides how to read the next operand, and whether operands are read as
/// named from now on.
pub fn classify_argument(named: &mut bool, head: &ArgHead) -> (form: ArgForm)
    ensures
        (form@, *final(named)) == classify_spec(*old(named), *head),
{
    let ident_eq = match &head.next {
        Lookahead::Ident(_, eq) => *eq,
        _ => false,
    };
    let string_eq = match (&head.string, &head.next) {
        (Some(_), Lookahead::Eq) => true,
        _ => false,
    };
    if *named || string_eq || ident_eq {
        *named = true;
        match &head.string {
            Some(s) => ArgForm::Explicit(s.clone()),
            None => match &head.next {
                Lookahead::Ident(name, _) => ArgForm::Named(name.clone()),
                _ => ArgForm::PositionalAfterNamed,
            },
        }
    } else {
        ArgForm::Positional
    }
}

/// The message for a duplicated operand name.
pub open spec fn duplicate_argument(name: Seq<char>) -> Seq<char> {
    "duplicate argument named `"@ + name + "`"@
}

impl Context {
    /// Adds an operand with an explicit constraint: `constraint = expr`,
    /// and `-> out` makes `out` the output operand `=constraint`.
    pub fn push_explicit(&mut self, constraint: &String, e: u64, out: Option<u64>)
        ensures
            final(self)@ == (ContextV {
                expr: InlineAsmV {
                    inputs: old(self)@.expr.inputs.push((constraint@, e)),
                    outputs: match out {
                        Some(o) => old(self)@.expr.outputs.push(("="@ + constraint@, o)),
                        None => old(self)@.expr.outputs,
                    },
                    ..old(self)@.expr
                },
                ..old(self)@
            }),
    {
        let ghost ins = self@.expr.inputs;
        let ghost outs = self@.expr.outputs;
        self.expr.inputs.push((constraint.clone(), e));
        assert(operands_view(self.expr.inputs@) =~= ins.push((constraint@, e)));
        match out {
            Some(o) => {
                let c = concat2("=", constraint.as_str());
                self.expr.outputs.push((c, o));
                assert(operands_view(self.expr.outputs@) =~= outs.push(("="@ + constraint@, o)));
            },
            None => {},
        }
    }

    /// Checks a named operand's name; a name given before is reported at
    /// the new expression, with a note at the earlier one, and the operand
    /// is dropped.
    pub fn duplicate_name(&mut self, name: &String, e: u64) -> (dup: bool)
        requires
            context_wf(old(self)@),
        ensures
            dup == (lookup_name(old(self)@.names, name@) is Some),
            context_wf(final(self)@),
            !dup ==> final(self)@ == old(self)@,
            dup ==> final(self)@ == (ContextV {
                errors: old(self)@.errors.push(diag(Site::Expr(e), duplicate_argument(name@), false)).push(
                    diag(
                        Site::Expr(old(self)@.args[lookup_name(old(self)@.names, name@)->0 as int].0),
                        "previously here"@,
                        true,
                    ),
                ),
                ..old(self)@
            }),
    {
        match self.find_name(name) {
            None => false,
            Some(idx) => {
                proof {
                    let i = choose|i: int| 0 <= i < self@.names.len() && (#[trigger] self@.names[i]).0 == name@;
                    assert(self@.names[i].1 < self@.args.len());
                }
                let prev = self.args[idx].0;
                let ghost errs = self@.errors;
                let msg = concat3("duplicate argument named `", name.as_str(), "`");
                self.errors.push(Diagnostic { site: Site::Expr(e), message: msg, note: false });
                self.errors.push(
                    Diagnostic { site: Site::Expr(prev), message: String::from_str("previously here"), note: true },
                );
                assert(self@.errors =~= errs.push(diag(Site::Expr(e), duplicate_argument(name@), false)).push(
                    diag(Site::Expr(prev), "previously here"@, true),
                ));
                true
            },
        }
    }

    /// Adds a named operand `name = expr [-> out]` whose name was not
    /// given before.
    pub fn add_named(&mut self, name: &String, e: u64, out: Option<u64>)
        requires
            context_wf(old(self)@),
            lookup_name(old(self)@.names, name@) is None,
        ensures
            context_wf(final(self)@),
            final(self)@ == (ContextV {
                names: old(self)@.names.push((name@, old(self)@.args.len() as usize)),
                args: old(self)@.args.push((e, out, None)),
                ..old(self)@
            }),
    {
        let ghost names0 = self@.names;
        let idx = self.args.len();
        self.names.push((name.clone(), idx));
        self.args.push((e, out, None));
        proof {
            assert(self@.names =~= names0.push((name@, idx)));
            assert forall|i: int| 0 <= i < names0.len() implies (#[trigger] names0[i]).0 != name@ by {
                if names0[i].0 == name@ {
                    assert(exists|j: int| 0 <= j < names0.len() && (#[trigger] names0[j]).0 == name@);
                }
            }
            let n = self@.names;
            assert forall|i: int, j: int| 0 <= i < n.len() && 0 <= j < n.len() && i != j implies #[trigger] n[i].0
                != #[trigger] n[j].0 by {
                if i < names0.len() && j < names0.len() {
                    assert(n[i] == names0[i] && n[j] == names0[j]);
                } else if i < names0.len() {
                    assert(n[i] == names0[i]);
                } else {
                    assert(n[j] == names0[j]);
                }
            }
            assert forall|i: int| 0 <= i < n.len() implies (#[trigger] n[i]).1 < self@.args.len() by {
                if i < names0.len() {
                    assert(n[i] == names0[i]);
                }
            }
        }
    }

    /// Adds a positional operand `expr [-> out]`.
    pub fn push_argument(&mut self, e: u64, out: Option<u64>)
        requires
            context_wf(old(self)@),
        ensures
            context_wf(final(self)@),
            final(self)@ == (ContextV { args: old(self)@.args.push((e, out, None)), ..old(self)@ }),
    {
        self.args.push((e, out, None));
        proof {
            let n = self@.names;
            assert forall|i: int| 0 <= i < n.len() implies (#[trigger] n[i]).1 < self@.args.len() by {
                assert(n[i].1 < old(self)@.args.len());
            }
        }
    }

    /// Gives up on the expansion with an error: no assembly is produced.
    pub fn abandon(self, site: Site, message: String) -> (x: Expansion)
        ensures
            x.result is None,
            diagnostics_view(x.errors@) == self@.errors.push(diag(site, message@, false)),
    {
        let ghost errs = self@.errors;
        let mut errors = self.errors;
        errors.push(Diagnostic { site, message, note: false });
        assert(diagnostics_view(errors@) =~= errs.push(diag(site, message@, false)));
        Expansion { result: None, errors }
    }

    /// Gives up because an operand is not followed by a comma.
    pub fn expected_comma(self) -> (x: Expansion)
        ensures
            x.result is None,
            diagnostics_view(x.errors@) == self@.errors.push(diag(Site::Macro, "expected token: `,`"@, false)),
    {
        self.abandon(Site::Macro, String::from_str("expected token: `,`"))
    }

    /// Gives up because a positional operand follows named ones.
    pub fn positional_after_named(self) -> (x: Expansion)
        ensures
            x.result is None,
            diagnostics_view(x.errors@) == self@.errors.push(
                diag(Site::Current, "expected ident, positional arguments cannot follow named arguments"@, false),
            ),
    {
        self.abandon(
            Site::Current,
            String::from_str("expected ident, positional arguments cannot follow named arguments"),
        )
    }
}

/// An operand of the call as the parser meets it: whether a comma came
/// before it, how it starts, its expression and, after `->`, its output
/// expression.
#[derive(Debug)]
pub struct OperandSyntax {
    pub comma_before: bool,
    pub head: ArgHead,
    pub expr: u64,
    pub out: Option<u64>,
}

/// The context after reading the operands `ops` from `c`, where `named`
/// tells whether a named operand or one with an explicit constraint was
/// read already; or the diagnostics when the reading gives up: at an
/// operand without a comma before it, or at a positional operand after
/// named ones. An operand whose name was given before is reported and
/// dropped; when it has `-> out`, the arrow stands where a comma should,
/// and the reading gives up there too.
pub open spec fn read_spec(c: ContextV, named: bool, ops: Seq<OperandSyntax>) -> Result<ContextV, Seq<DiagnosticV>>
    decreases ops.len(),
{
    if ops.len() == 0 {
        Ok(c)
    } else {
        match read_one(c, named, ops[0]) {
            Err(errs) => Err(errs),
            Ok((c1, named1)) => read_spec(c1, named1, ops.drop_first()),
        }
    }
}

/// Reading one operand: the context after it and whether operands are read
/// as named from then on, or the diagnostics when the reading gives up
/// there.
pub open spec fn read_one(c: ContextV, named: bool, op: OperandSyntax) -> Result<(ContextV, bool), Seq<DiagnosticV>> {
    if !op.comma_before {
        Err(c.errors.push(diag(Site::Macro, "expected token: `,`"@, false)))
    } else {
        let (form, named2) = classify_spec(named, op.head);
        match form {
            ArgFormV::Explicit(k) => Ok(
                (
                    ContextV {
                        expr: InlineAsmV {
                            inputs: c.expr.inputs.push((k, op.expr)),
                            outputs: match op.out {
                                Some(o) => c.expr.outputs.push(("="@ + k, o)),
                                None => c.expr.outputs,
                            },
                            ..c.expr
                        },
                        ..c
                    },
                    named2,
                ),
            ),
            ArgFormV::Named(name) => match lookup_name(c.names, name) {
                Some(i) => {
                    let errors = c.errors.push(diag(Site::Expr(op.expr), duplicate_argument(name), false)).push(
                        diag(Site::Expr(c.args[i as int].0), "previously here"@, true),
                    );
                    if op.out is Some {
                        Err(errors.push(diag(Site::Macro, "expected token: `,`"@, false)))
                    } else {
                        Ok((ContextV { errors, ..c }, named2))
                    }
                },
                None => Ok(
                    (
                        ContextV {
                            names: c.names.push((name, c.args.len() as usize)),
                            args: c.args.push((op.expr, op.out, None)),
                            ..c
                        },
                        named2,
                    ),
                ),
            },
            ArgFormV::Positional => Ok((ContextV { args: c.args.push((op.expr, op.out, None)), ..c }, named2)),
            ArgFormV::PositionalAfterNamed => Err(
                c.errors.push(
                    diag(Site::Current, "expected ident, positional arguments cannot follow named arguments"@, false),
                ),
            ),
        }
    }
}

/// The operand `op` is read as a positional one when no named operand came
/// before it: a comma precedes it, and it starts neither with a string
/// followed by `=` nor with an identifier followed by `=`.
pub open spec fn reads_as_positional(op: OperandSyntax) -> bool {
    &&& op.comma_before
    &&& !(op.head.string is Some && op.head.next is Eq)
    &&& !(op.head.next matches Lookahead::Ident(_, true))
}

/// Reading positional operands appends each, in order, to the operand list
/// with its expression and the output expression given after its `->`
/// (none without one), and changes nothing else.
pub proof fn lemma_positional_operands(c: ContextV, ops: Seq<OperandSyntax>)
    requires
        forall|k: int| 0 <= k < ops.len() ==> reads_as_positional(#[trigger] ops[k]),
    ensures
        read_spec(c, false, ops) == Ok::<ContextV, Seq<DiagnosticV>>(
            ContextV {
                args: c.args + Seq::new(ops.len(), |k: int| (ops[k].expr, ops[k].out, None::<usize>)),
                ..c
            },
        ),
    decreases ops.len(),
{
    let expected = c.args + Seq::new(ops.len(), |k: int| (ops[k].expr, ops[k].out, None::<usize>));
    if ops.len() == 0 {
        assert(expected =~= c.args);
    } else {
        let op = ops[0];
        assert(reads_as_positional(ops[0]));
        let c1 = ContextV { args: c.args.push((op.expr, op.out, None::<usize>)), ..c };
        let rest = ops.drop_first();
        assert forall|k: int| 0 <= k < rest.len() implies reads_as_positional(#[trigger] rest[k]) by {
            assert(rest[k] == ops[k + 1]);
            assert(reads_as_positional(ops[k + 1]));
        }
        lemma_positional_operands(c1, rest);
        assert(c1.args + Seq::new(rest.len(), |k: int| (rest[k].expr, rest[k].out, None::<usize>)) =~= expected);
    }
}

/// Reads the operands of the call in order, each with the step its form
/// asks for; gives up with the diagnostics and no assembly on an operand
/// without a comma before it, on a positional operand after named ones, or
/// after a repeated name that has `-> out`.
#[verifier::loop_isolation(false)]
pub fn read_operands(cx: Context, ops: &Vec<OperandSyntax>) -> (r: Result<Context, Expansion>)
    requires
        context_wf(cx@),
    ensures
        match read_spec(cx@, false, ops@) {
            Ok(c) => r matches Ok(c2) && c2@ == c && context_wf(c2@),
            Err(errs) => r matches Err(x) && x.result is None && diagnostics_view(x.errors@) == errs,
        },
        (forall|k: int| 0 <= k < ops@.len() ==> reads_as_positional(#[trigger] ops@[k])) ==> (r matches Ok(c2)
            && c2@ == (ContextV {
            args: cx@.args + Seq::new(ops@.len(), |k: int| (ops@[k].expr, ops@[k].out, None::<usize>)),
            ..cx@
        })),
{
    proof {
        if forall|k: int| 0 <= k < ops@.len() ==> reads_as_positional(#[trigger] ops@[k]) {
            lemma_positional_operands(cx@, ops@);
        }
    }
    let ghost c0 = cx@;
    let mut cx = cx;
    let mut named = false;
    let mut i: usize = 0;
    proof {
        assert(ops@.skip(0) =~= ops@);
    }
    while i < ops.len()
        invariant
            i <= ops@.len(),
            context_wf(cx@),
            read_spec(c0, false, ops@) == read_spec(cx@, named, ops@.skip(i as int)),
        decreases ops@.len() - i,
    {
        let op = &ops[i];
        proof {
            let tail = ops@.skip(i as int);
            assert(tail[0] == ops@[i as int]);
            assert(tail.drop_first() =~= ops@.skip(i + 1));
        }
        if !op.comma_before {
            return Err(cx.expected_comma());
        }
        match classify_argument(&mut named, &op.head) {
            ArgForm::Explicit(constraint) => {
                cx.push_explicit(&constraint, op.expr, op.out);
            },
            ArgForm::Named(name) => {
                if !cx.duplicate_name(&name, op.expr) {
                    cx.add_named(&name, op.expr, op.out);
                } else if op.out.is_some() {
                    // The dropped operand's `-> out` stands where the next
                    // comma should.
                    return Err(cx.expected_comma());
                }
            },
            ArgForm::Positional => {
                cx.push_argument(op.expr, op.out);
            },
            ArgForm::PositionalAfterNamed => {
                return Err(cx.positional_after_named());
            },
        }
        i += 1;
    }
    proof {
        assert(ops@.skip(i as int) =~= Seq::<OperandSyntax>::empty());
    }
    Ok(cx)
}

/// The context and the clobbered registers after the option words `opts`,
/// read in order from `c` and `clobs`.
pub open spec fn options_spec(c: ContextV, clobs: Seq<Seq<char>>, opts: Seq<Seq<char>>) -> (ContextV, Seq<Seq<char>>)
    decreases opts.len(),
{
    if opts.len() == 0 {
        (c, clobs)
    } else {
        let (c1, clobs1) = option_effect(c, clobs, opts[0]);
        options_spec(c1, clobs1, opts.drop_first())
    }
}

/// The context once the option words `opts` are read and the clobber list
/// is written.
pub open spec fn after_options(opts: Seq<Seq<char>>) -> ContextV {
    let (c, clobs) = options_spec(empty_context(), Seq::empty(), opts);
    ContextV { expr: InlineAsmV { clobbers: clobbers_text(clobs), ..c.expr }, ..c }
}

/// What a call of the macro gives: the inline assembly, unless an error was
/// reported, and the diagnostics; or the abort of its expansion. The option
/// words are read first, then the operands; when the reading gives up,
/// there is no assembly; otherwise the template's pieces are expanded,
/// unless they abort it.
pub open spec fn call_spec(
    opts: Seq<Seq<char>>,
    ops: Seq<OperandSyntax>,
    ps: Seq<PieceV>,
    error: Option<Seq<char>>,
) -> Result<(Option<InlineAsmV>, Seq<DiagnosticV>), Failure> {
    match read_spec(after_options(opts), false, ops) {
        Err(errs) => Ok((None, errs)),
        Ok(c) => match expansion_abort(c, ps) {
            Some(f) => Err(f),
            None => expand_spec(c, ps, error),
        },
    }
}

/// Option words only set flags and collect clobbered registers.
proof fn lemma_options_keep(c: ContextV, clobs: Seq<Seq<char>>, opts: Seq<Seq<char>>)
    ensures
        ({
            let c1 = options_spec(c, clobs, opts).0;
            &&& c1.next_argument == c.next_argument
            &&& c1.args == c.args
            &&& c1.arg_outputs == c.arg_outputs
            &&& c1.arg_inputs == c.arg_inputs
            &&& c1.expr.inputs == c.expr.inputs
            &&& c1.expr.outputs == c.expr.outputs
        }),
    decreases opts.len(),
{
    if opts.len() > 0 {
        let (c2, clobs2) = option_effect(c, clobs, opts[0]);
        lemma_options_keep(c2, clobs2, opts.drop_first());
    }
}

/// Reading operands takes no `{}` operand and no slot, and adds at most one
/// input and one output operand per operand read.
proof fn lemma_read_bounds(c: ContextV, named: bool, ops: Seq<OperandSyntax>)
    ensures
        read_spec(c, named, ops) matches Ok(c2) ==> {
            &&& c2.next_argument == c.next_argument
            &&& c2.arg_outputs == c.arg_outputs
            &&& c2.arg_inputs == c.arg_inputs
            &&& c2.expr.inputs.len() <= c.expr.inputs.len() + ops.len()
            &&& c2.expr.outputs.len() <= c.expr.outputs.len() + ops.len()
        },
    decreases ops.len(),
{
    if ops.len() > 0 {
        if let Ok((c1, named1)) = read_one(c, named, ops[0]) {
            lemma_read_bounds(c1, named1, ops.drop_first());
        }
    }
}

/// Expands a call of the macro from its option words, its operands, the
/// pieces the format parser made of the template and that parser's first
/// error: `Err` with the abort the expansion meets, if it meets one.
pub fn expand_call(
    options: &Vec<String>,
    operands: &Vec<OperandSyntax>,
    pieces: &Vec<Piece>,
    format_error: &Option<String>,
) -> (r: Result<Expansion, Failure>)
    requires
        2 * operands@.len() + pieces@.len() <= usize::MAX,
    ensures
        match call_spec(strings_view(options@), operands@, pieces_view(pieces@), error_view(*format_error)) {
            Err(f) => r == Err::<Expansion, Failure>(f),
            Ok((result, errors)) => r matches Ok(x) && diagnostics_view(x.errors@) == errors && match result {
                None => x.result is None,
                Some(a) => x.result matches Some(ia) && ia@ == a,
            },
        },
{
    let ghost opts = strings_view(options@);
    let mut cx = Context::new();
    let mut clobs: Vec<String> = Vec::new();
    let mut i: usize = 0;
    proof {
        assert(opts.skip(0) =~= opts);
        assert(strings_view(clobs@) =~= Seq::<Seq<char>>::empty());
    }
    while i < options.len()
        invariant
            opts == strings_view(options@),
            i <= options@.len(),
            context_wf(cx@),
            options_spec(empty_context(), Seq::empty(), opts) == options_spec(
                cx@,
                strings_view(clobs@),
                opts.skip(i as int),
            ),
        decreases options@.len() - i,
    {
        proof {
            assert(opts.skip(i as int)[0] == options@[i as int]@);
            assert(opts.skip(i as int).drop_first() =~= opts.skip(i + 1));
        }
        apply_option(&mut cx, &mut clobs, options[i].as_str());
        i += 1;
    }
    proof {
        assert(opts.skip(i as int) =~= Seq::<Seq<char>>::empty());
    }
    cx.set_clobbers(&clobs);
    assert(cx@ == after_options(opts));
    match read_operands(cx, operands) {
        Err(x) => Ok(x),
        Ok(cx) => {
            proof {
                lemma_options_keep(empty_context(), Seq::empty(), opts);
                lemma_read_bounds(after_options(opts), false, operands@);
            }
            match find_abort(&cx, pieces) {
                Some(f) => Err(f),
                None => Ok(expand_asm_format(cx, pieces, format_error)),
            }
        },
    }
}

} // verus!
