//! The operand bookkeeping of `asm_format!`: template pieces, operand
//! slots and the translation of placeholders.
use vstd::prelude::*;
use crate::asm_format::text::{concat2, concat3, decimal, push_decimal};

verus! {

/// The assembler syntax of the template.
#[derive(Debug, Clone, Copy, PartialEq, Eq, Structural)]
pub enum Dialect {
    AsmAtt,
    AsmIntel,
}

/// The inline assembly the macro expands to. Operand expressions are
/// handles to expressions of the macro input.
#[derive(Debug)]
pub struct InlineAsm {
    pub template: String,
    pub clobbers: String,
    pub inputs: Vec<(String, u64)>,
    pub outputs: Vec<(String, u64)>,
    pub volatile: bool,
    pub alignstack: bool,
    pub dialect: Dialect,
}

pub struct InlineAsmV {
    pub template: Seq<char>,
    pub clobbers: Seq<char>,
    pub inputs: Seq<(Seq<char>, u64)>,
    pub outputs: Seq<(Seq<char>, u64)>,
    pub volatile: bool,
    pub alignstack: bool,
    pub dialect: Dialect,
}

/// The constraint strings and expressions of an operand list.
pub open spec fn operands_view(v: Seq<(String, u64)>) -> Seq<(Seq<char>, u64)> {
    v.map_values(|p: (String, u64)| (p.0@, p.1))
}

impl View for InlineAsm {
    type V = InlineAsmV;

    open spec fn view(&self) -> InlineAsmV {
        InlineAsmV {
            template: self.template@,
            clobbers: self.clobbers@,
            inputs: operands_view(self.inputs@),
            outputs: operands_view(self.outputs@),
            volatile: self.volatile,
            alignstack: self.alignstack,
            dialect: self.dialect,
        }
    }
}

/// Which operand a placeholder names: the next one, the one at an index,
/// or a named one.
#[derive(Debug)]
pub enum Position {
    ArgumentNext,
    ArgumentIs(usize),
    ArgumentNamed(String),
}

pub enum PositionV {
    ArgumentNext,
    ArgumentIs(usize),
    ArgumentNamed(Seq<char>),
}

impl View for Position {
    type V = PositionV;

    open spec fn view(&self) -> PositionV {
        match self {
            Position::ArgumentNext => PositionV::ArgumentNext,
            Position::ArgumentIs(n) => PositionV::ArgumentIs(*n),
            Position::ArgumentNamed(s) => PositionV::ArgumentNamed(s@),
        }
    }
}

/// The alignment flag of a placeholder: `<` marks an output.
#[derive(Debug, Clone, Copy, PartialEq, Eq, Structural)]
pub enum Alignment {
    AlignLeft,
    AlignRight,
    AlignCenter,
    AlignUnknown,
}

/// A width or precision of a placeholder.
#[derive(Debug)]
pub enum Count {
    CountIs(usize),
    CountIsName(String),
    CountIsParam(usize),
    CountIsNextParam,
    CountImplied,
}

/// The format part of a placeholder, after the colon.
#[derive(Debug)]
pub struct FormatSpec {
    pub fill: Option<char>,
    pub align: Alignment,
    pub flags: u32,
    pub precision: Count,
    pub width: Count,
    /// The operand's constraint type, such as `r`.
    pub ty: String,
}

/// A placeholder of the template.
#[derive(Debug)]
pub struct Argument {
    pub position: Position,
    pub format: FormatSpec,
}

/// A piece of the template: literal text or a placeholder.
#[derive(Debug)]
pub enum Piece {
    Str(String),
    Argument(Argument),
}

pub enum PieceV {
    Str(Seq<char>),
    /// `plain` holds when the placeholder has no fill, flags, precision
    /// or width.
    Argument { position: PositionV, align: Alignment, ty: Seq<char>, plain: bool },
}

impl View for Piece {
    type V = PieceV;

    open spec fn view(&self) -> PieceV {
        match self {
            Piece::Str(s) => PieceV::Str(s@),
            Piece::Argument(a) => PieceV::Argument {
                position: a.position@,
                align: a.format.align,
                ty: a.format.ty@,
                plain: a.format.fill is None && a.format.flags == 0 && a.format.precision is CountImplied
                    && a.format.width is CountImplied,
            },
        }
    }
}

/// A translated piece: literal text, or the output or input slot a
/// placeholder was given.
#[derive(Debug)]
pub enum AsmPiece {
    Str(String),
    Output(usize),
    Input(usize),
}

pub enum AsmPieceV {
    Str(Seq<char>),
    Output(usize),
    Input(usize),
}

impl View for AsmPiece {
    type V = AsmPieceV;

    open spec fn view(&self) -> AsmPieceV {
        match self {
            AsmPiece::Str(s) => AsmPieceV::Str(s@),
            AsmPiece::Output(n) => AsmPieceV::Output(*n),
            AsmPiece::Input(n) => AsmPieceV::Input(*n),
        }
    }
}

/// Where a diagnostic points: the whole macro call, the template, the
/// token being parsed, or an operand expression.
#[derive(Debug, Clone, Copy, PartialEq, Eq, Structural)]
pub enum Site {
    Macro,
    Template,
    Current,
    Expr(u64),
}

/// An error or note reported while expanding the macro.
#[derive(Debug)]
pub struct Diagnostic {
    pub site: Site,
    pub message: String,
    pub note: bool,
}

pub struct DiagnosticV {
    pub site: Site,
    pub message: Seq<char>,
    pub note: bool,
}

impl View for Diagnostic {
    type V = DiagnosticV;

    open spec fn view(&self) -> DiagnosticV {
        DiagnosticV { site: self.site, message: self.message@, note: self.note }
    }
}

/// An error or note at `site` with `message`.
pub open spec fn diag(site: Site, message: Seq<char>, note: bool) -> DiagnosticV {
    DiagnosticV { site, message, note }
}

/// How the expansion aborts: a placeholder with an alignment other than
/// `<` or none, a placeholder with fill, flags, width or precision, or an
/// operand index past the operands given.
#[derive(Debug, Clone, Copy, PartialEq, Eq, Structural)]
pub enum Failure {
    InvalidAlign,
    MethodsNotImplemented,
    IndexOutOfBounds,
}

/// The expansion state.
#[derive(Debug)]
pub struct Context {
    /// The translated template.
    pub asm_str: String,
    /// The inline assembly being built; its operands given with explicit
    /// constraints come first.
    pub expr: InlineAsm,
    /// An error was reported: the expansion gives no assembly.
    pub dummy: bool,
    /// The diagnostics reported, in order.
    pub errors: Vec<Diagnostic>,
    /// The positional and named operands: input expression, output
    /// expression, and the output slot an operand was given.
    pub args: Vec<(u64, Option<u64>, Option<usize>)>,
    /// The output slots: operand index and constraint type.
    pub arg_outputs: Vec<(usize, String)>,
    /// The input slots: operand index and constraint type.
    pub arg_inputs: Vec<(usize, String)>,
    /// The named operands and their indices into `args`.
    pub names: Vec<(String, usize)>,
    /// The operand that the next `{}` reads.
    pub next_argument: usize,
}

pub struct ContextV {
    pub asm_str: Seq<char>,
    pub expr: InlineAsmV,
    pub dummy: bool,
    pub errors: Seq<DiagnosticV>,
    pub args: Seq<(u64, Option<u64>, Option<usize>)>,
    pub arg_outputs: Seq<(usize, Seq<char>)>,
    pub arg_inputs: Seq<(usize, Seq<char>)>,
    pub names: Seq<(Seq<char>, usize)>,
    pub next_argument: usize,
}

/// Slot keys with their constraint types as character sequences.
pub open spec fn keys_view(v: Seq<(usize, String)>) -> Seq<(usize, Seq<char>)> {
    v.map_values(|p: (usize, String)| (p.0, p.1@))
}

/// Operand names as character sequences.
pub open spec fn names_view(v: Seq<(String, usize)>) -> Seq<(Seq<char>, usize)> {
    v.map_values(|p: (String, usize)| (p.0@, p.1))
}

impl View for Context {
    type V = ContextV;

    open spec fn view(&self) -> ContextV {
        ContextV {
            asm_str: self.asm_str@,
            expr: self.expr@,
            dummy: self.dummy,
            errors: self.errors@.map_values(|d: Diagnostic| d@),
            args: self.args@,
            arg_outputs: keys_view(self.arg_outputs@),
            arg_inputs: keys_view(self.arg_inputs@),
            names: names_view(self.names@),
            next_argument: self.next_argument,
        }
    }
}

/// The slot lists hold no key twice, the names are distinct, and each
/// name refers to an operand.
pub open spec fn context_wf(c: ContextV) -> bool {
    &&& c.arg_outputs.no_duplicates()
    &&& c.arg_inputs.no_duplicates()
    &&& forall|i: int, j: int|
        0 <= i < c.names.len() && 0 <= j < c.names.len() && i != j ==> #[trigger] c.names[i].0
            != #[trigger] c.names[j].0
    &&& forall|i: int| 0 <= i < c.names.len() ==> (#[trigger] c.names[i]).1 < c.args.len()
}

/// The operand index bound to `name`.
pub open spec fn lookup_name(names: Seq<(Seq<char>, usize)>, name: Seq<char>) -> Option<usize> {
    if exists|i: int| 0 <= i < names.len() && (#[trigger] names[i]).0 == name {
        Some(names[choose|i: int| 0 <= i < names.len() && (#[trigger] names[i]).0 == name].1)
    } else {
        None
    }
}

/// The slot list after asking for `key`, and the key's slot: the existing
/// slot when the key is present, a new last slot otherwise.
pub open spec fn spec_fetch(v: Seq<(usize, Seq<char>)>, key: (usize, Seq<char>)) -> (Seq<(usize, Seq<char>)>, int) {
    if v.contains(key) {
        (v, v.index_of(key))
    } else {
        (v.push(key), v.len() as int)
    }
}

/// The slot handed out for a key holds that key, and the slots that were
/// there before keep their keys.
pub proof fn lemma_fetch_slot(v: Seq<(usize, Seq<char>)>, key: (usize, Seq<char>))
    ensures
        0 <= spec_fetch(v, key).1 < spec_fetch(v, key).0.len(),
        spec_fetch(v, key).0[spec_fetch(v, key).1] == key,
        v.is_prefix_of(spec_fetch(v, key).0),
{
    if v.contains(key) {
        let i = v.index_of(key);
        assert(v[i] == key);
        assert(v =~= v.subrange(0, v.len() as int));
    } else {
        assert(v =~= v.push(key).subrange(0, v.len() as int));
    }
}

/// Asking twice for the slot of the same key gives the same slot, and the
/// second request leaves the slot list as the first one left it: a
/// placeholder repeated in the template names the same operand slot.
pub proof fn lemma_fetch_idempotent(v: Seq<(usize, Seq<char>)>, key: (usize, Seq<char>))
    ensures
        spec_fetch(spec_fetch(v, key).0, key) == spec_fetch(v, key),
{
    if !v.contains(key) {
        let w = v.push(key);
        assert(w[v.len() as int] == key);
        assert(w.contains(key));
        let i = w.index_of(key);
        if i < v.len() {
            assert(w[i] == v[i]);
            assert(v.contains(key));
        }
    }
}

/// The slot of `key` in `arg`, added at the end when missing: the index of
/// its first occurrence.
pub fn fetch_idx(arg: &mut Vec<(usize, String)>, key: (usize, String)) -> (idx: usize)
    ensures
        ({
            let before = keys_view(old(arg)@);
            let after = keys_view(final(arg)@);
            let k = (key.0, key.1@);
            &&& before.contains(k) ==> {
                &&& after == before
                &&& idx < before.len()
                &&& before[idx as int] == k
                &&& forall|j: int| 0 <= j < idx ==> before[j] != k
            }
            &&& !before.contains(k) ==> after == before.push(k) && idx == before.len()
        }),
{
    let ghost before = keys_view(arg@);
    let ghost k = (key.0, key.1@);
    let mut i: usize = 0;
    while i < arg.len()
        invariant
            before == keys_view(arg@),
            k == (key.0, key.1@),
            i <= arg@.len(),
            forall|j: int| 0 <= j < i ==> before[j] != k,
        decreases arg@.len() - i,
    {
        if arg[i].0 == key.0 && arg[i].1 == key.1 {
            assert(before[i as int] == k);
            return i;
        }
        assert(before[i as int] != k);
        i += 1;
    }
    let last_idx = arg.len();
    arg.push(key);
    proof {
        assert(!before.contains(k));
        assert(keys_view(arg@) =~= before.push(k));
    }
    last_idx
}

/// The message for a placeholder naming an operand that was not given.
pub open spec fn no_argument_named(name: Seq<char>) -> Seq<char> {
    "there is no argument named `"@ + name + "`"@
}

/// Translates one piece of the template. Text stays text. A placeholder
/// without fill, flags, width or precision names an operand (the next
/// one, the one at an index, or a named one) and gets the output slot of
/// that operand and type when aligned `<`, the input slot otherwise; a
/// placeholder naming an unknown operand reports an error and becomes
/// empty text.
pub open spec fn trans_piece_spec(c: ContextV, p: PieceV) -> Result<(ContextV, AsmPieceV), Failure> {
    match p {
        PieceV::Str(s) => Ok((c, AsmPieceV::Str(s))),
        PieceV::Argument { position, align, ty, plain } => {
            if !plain {
                Err(Failure::MethodsNotImplemented)
            } else {
                let (key, c1) = match position {
                    PositionV::ArgumentNext => (
                        Some(c.next_argument),
                        ContextV { next_argument: (c.next_argument + 1) as usize, ..c },
                    ),
                    PositionV::ArgumentIs(n) => (Some(n), c),
                    PositionV::ArgumentNamed(name) => (lookup_name(c.names, name), c),
                };
                match key {
                    None => {
                        let name = match position {
                            PositionV::ArgumentNamed(name) => name,
                            _ => Seq::empty(),
                        };
                        Ok((
                            ContextV {
                                errors: c1.errors.push(diag(Site::Template, no_argument_named(name), false)),
                                dummy: true,
                                ..c1
                            },
                            AsmPieceV::Str(Seq::empty()),
                        ))
                    },
                    Some(key) => match align {
                        Alignment::AlignLeft => {
                            let (v, i) = spec_fetch(c1.arg_outputs, (key, ty));
                            Ok((ContextV { arg_outputs: v, ..c1 }, AsmPieceV::Output(i as usize)))
                        },
                        Alignment::AlignUnknown => {
                            let (v, i) = spec_fetch(c1.arg_inputs, (key, ty));
                            Ok((ContextV { arg_inputs: v, ..c1 }, AsmPieceV::Input(i as usize)))
                        },
                        _ => Err(Failure::InvalidAlign),
                    },
                }
            }
        },
    }
}

proof fn lemma_fetch_index(v: Seq<(usize, Seq<char>)>, k: (usize, Seq<char>), idx: int)
    requires
        v.no_duplicates(),
        0 <= idx < v.len(),
        v[idx] == k,
    ensures
        v.index_of(k) == idx,
{
    let j = v.index_of(k);
    assert(v.contains(k));
    assert(v[j] == k);
}

proof fn lemma_push_no_dup<T>(v: Seq<T>, x: T)
    requires
        v.no_duplicates(),
        !v.contains(x),
    ensures
        v.push(x).no_duplicates(),
{
    let w = v.push(x);
    assert forall|a: int, b: int| 0 <= a < w.len() && 0 <= b < w.len() && a != b implies w[a] != w[b] by {
        if a < v.len() && b < v.len() {
            assert(w[a] == v[a] && w[b] == v[b]);
        } else if a < v.len() {
            assert(w[a] == v[a]);
        } else {
            assert(w[b] == v[b]);
        }
    }
}

/// The state before any option or operand is read.
pub open spec fn empty_context() -> ContextV {
    ContextV {
        asm_str: Seq::empty(),
        expr: InlineAsmV {
            template: Seq::empty(),
            clobbers: Seq::empty(),
            inputs: Seq::empty(),
            outputs: Seq::empty(),
            volatile: false,
            alignstack: false,
            dialect: Dialect::AsmAtt,
        },
        dummy: false,
        errors: Seq::empty(),
        args: Seq::empty(),
        arg_outputs: Seq::empty(),
        arg_inputs: Seq::empty(),
        names: Seq::empty(),
        next_argument: 0,
    }
}

impl Context {
    /// The state before any option or operand is read: an empty template
    /// and operand lists, AT&T syntax, nothing volatile.
    pub fn new() -> (c: Context)
        ensures
            c@.asm_str == Seq::<char>::empty(),
            c@.expr.template == Seq::<char>::empty(),
            c@.expr.clobbers == Seq::<char>::empty(),
            c@.expr.inputs == Seq::<(Seq<char>, u64)>::empty(),
            c@.expr.outputs == Seq::<(Seq<char>, u64)>::empty(),
            !c@.expr.volatile,
            !c@.expr.alignstack,
            c@.expr.dialect == Dialect::AsmAtt,
            !c@.dummy,
            c@.errors == Seq::<DiagnosticV>::empty(),
            c@.args == Seq::<(u64, Option<u64>, Option<usize>)>::empty(),
            c@.arg_outputs == Seq::<(usize, Seq<char>)>::empty(),
            c@.arg_inputs == Seq::<(usize, Seq<char>)>::empty(),
            c@.names == Seq::<(Seq<char>, usize)>::empty(),
            c@.next_argument == 0,
            context_wf(c@),
            c@ == empty_context(),
    {
        let c = Context {
            asm_str: String::new(),
            expr: InlineAsm {
                template: String::new(),
                clobbers: String::new(),
                inputs: Vec::new(),
                outputs: Vec::new(),
                volatile: false,
                alignstack: false,
                dialect: Dialect::AsmAtt,
            },
            dummy: false,
            errors: Vec::new(),
            args: Vec::new(),
            arg_outputs: Vec::new(),
            arg_inputs: Vec::new(),
            names: Vec::new(),
            next_argument: 0,
        };
        assert(c@.errors =~= Seq::<DiagnosticV>::empty());
        assert(c@.expr.inputs =~= Seq::<(Seq<char>, u64)>::empty());
        assert(c@.expr.outputs =~= Seq::<(Seq<char>, u64)>::empty());
        assert(c@.arg_outputs =~= Seq::<(usize, Seq<char>)>::empty());
        assert(c@.arg_inputs =~= Seq::<(usize, Seq<char>)>::empty());
        assert(c@.names =~= Seq::<(Seq<char>, usize)>::empty());
        c
    }

    /// The operand index bound to `name`.
    pub fn find_name(&self, name: &String) -> (r: Option<usize>)
        requires
            context_wf(self@),
        ensures
            r == lookup_name(self@.names, name@),
    {
        let ghost nv = self@.names;
        let mut i: usize = 0;
        while i < self.names.len()
            invariant
                nv == names_view(self.names@),
                context_wf(self@),
                i <= self.names@.len(),
                forall|j: int| 0 <= j < i ==> (#[trigger] nv[j]).0 != name@,
            decreases self.names@.len() - i,
        {
            if self.names[i].0 == *name {
                proof {
                    assert(nv[i as int].0 == name@);
                    let c = choose|j: int| 0 <= j < nv.len() && (#[trigger] nv[j]).0 == name@;
                    if c != i {
                        assert(self@.names[c].0 != self@.names[i as int].0);
                    }
                }
                return Some(self.names[i].1);
            }
            assert(nv[i as int].0 != name@);
            i += 1;
        }
        None
    }

    /// Translates one piece of the template, which does not abort the
    /// expansion (see `piece_abort`).
    pub fn trans_piece(&mut self, piece: &Piece) -> (r: AsmPiece)
        requires
            context_wf(old(self)@),
            piece@ matches PieceV::Argument { position: PositionV::ArgumentNext, .. } ==> old(self).next_argument
                < usize::MAX,
            piece_abort(old(self)@, piece@) is None,
        ensures
            trans_piece_spec(old(self)@, piece@) == Ok::<(ContextV, AsmPieceV), Failure>((final(self)@, r@)),
            context_wf(final(self)@),
            final(self).next_argument <= old(self).next_argument + 1,
    {
        match piece {
            Piece::Str(s) => AsmPiece::Str(s.clone()),
            Piece::Argument(arg) => {
                let f = &arg.format;
                let key = match &arg.position {
                    Position::ArgumentNext => {
                        let key = self.next_argument;
                        self.next_argument = self.next_argument + 1;
                        key
                    },
                    Position::ArgumentIs(n) => *n,
                    Position::ArgumentNamed(name) => match self.find_name(name) {
                        Some(n) => n,
                        None => {
                            let msg = concat3("there is no argument named `", name.as_str(), "`");
                            self.errors.push(Diagnostic { site: Site::Template, message: msg, note: false });
                            self.dummy = true;
                            proof {
                                assert(self@.errors =~= old(self)@.errors.push(
                                    diag(Site::Template, no_argument_named(name@), false),
                                ));
                            }
                            return AsmPiece::Str(String::new());
                        },
                    },
                };
                match f.align {
                    Alignment::AlignLeft => {
                        let ghost before = self@.arg_outputs;
                        let idx = fetch_idx(&mut self.arg_outputs, (key, f.ty.clone()));
                        proof {
                            let k = (key, f.ty@);
                            if before.contains(k) {
                                lemma_fetch_index(before, k, idx as int);
                            } else {
                                lemma_push_no_dup(before, k);
                            }
                        }
                        AsmPiece::Output(idx)
                    },
                    _ => {
                        // Only an absent alignment is left: the others abort.
                        assert(f.align == Alignment::AlignUnknown);
                        let ghost before = self@.arg_inputs;
                        let idx = fetch_idx(&mut self.arg_inputs, (key, f.ty.clone()));
                        proof {
                            let k = (key, f.ty@);
                            if before.contains(k) {
                                lemma_fetch_index(before, k, idx as int);
                            } else {
                                lemma_push_no_dup(before, k);
                            }
                        }
                        AsmPiece::Input(idx)
                    },
                }
            },
        }
    }
}

/// The abort, if any, that translating piece `p` causes: a placeholder
/// with fill, flags, width or precision ends the expansion with
/// `MethodsNotImplemented`; one whose operand is known and whose alignment
/// is neither `<` nor absent ends it with `InvalidAlign`. A placeholder
/// naming no operand reports an error instead and causes none.
pub open spec fn piece_abort(c: ContextV, p: PieceV) -> Option<Failure> {
    match p {
        PieceV::Str(_) => None,
        PieceV::Argument { position, align, ty: _, plain } => {
            if !plain {
                Some(Failure::MethodsNotImplemented)
            } else if (position matches PositionV::ArgumentNamed(name) && lookup_name(c.names, name) is None)
                || align == Alignment::AlignLeft || align == Alignment::AlignUnknown {
                None
            } else {
                Some(Failure::InvalidAlign)
            }
        },
    }
}

/// How many of the first `k` pieces are `{}` placeholders.
pub open spec fn nexts_before(ps: Seq<PieceV>, k: nat) -> nat
    decreases k,
{
    if k == 0 {
        0
    } else {
        nexts_before(ps, (k - 1) as nat) + if ps[k - 1] matches PieceV::Argument {
            position: PositionV::ArgumentNext,
            ..
        } {
            1nat
        } else {
            0nat
        }
    }
}

/// The operand that piece `k` asks for by position: the index it gives, or
/// for `{}` the operand after those the earlier `{}` took.
pub open spec fn operand_asked(c: ContextV, ps: Seq<PieceV>, k: int) -> Option<int> {
    match ps[k] {
        PieceV::Argument { position: PositionV::ArgumentIs(n), .. } => Some(n as int),
        PieceV::Argument { position: PositionV::ArgumentNext, .. } => Some(
            c.next_argument + nexts_before(ps, k as nat),
        ),
        _ => None,
    }
}

/// Every slot taken so far names an operand that was given.
pub open spec fn slots_in_range(c: ContextV) -> bool {
    &&& forall|n: int| 0 <= n < c.arg_outputs.len() ==> (#[trigger] c.arg_outputs[n]).0 < c.args.len()
    &&& forall|n: int| 0 <= n < c.arg_inputs.len() ==> (#[trigger] c.arg_inputs[n]).0 < c.args.len()
}

/// The expansion of the pieces `ps` runs to its end: no piece aborts its
/// translation, every operand a piece asks for by position was given, and
/// the slots already taken name operands that were given.
pub open spec fn expansion_supported(c: ContextV, ps: Seq<PieceV>) -> bool {
    &&& forall|k: int| 0 <= k < ps.len() ==> piece_abort(c, #[trigger] ps[k]) is None
    &&& forall|k: int|
        0 <= k < ps.len() ==> (#[trigger] operand_asked(c, ps, k) matches Some(i) ==> i < c.args.len())
    &&& slots_in_range(c)
}

/// The first abort that translating the pieces in order meets.
pub open spec fn first_abort(c: ContextV, ps: Seq<PieceV>) -> Option<Failure>
    decreases ps.len(),
{
    if ps.len() == 0 {
        None
    } else {
        match first_abort(c, ps.drop_last()) {
            Some(f) => Some(f),
            None => piece_abort(c, ps.last()),
        }
    }
}

/// How an expansion of the pieces `ps` aborts, if it does: at the first
/// piece whose translation aborts, or else while binding the slots, on a
/// slot that names an operand that was not given.
pub open spec fn expansion_abort(c: ContextV, ps: Seq<PieceV>) -> Option<Failure> {
    match first_abort(c, ps) {
        Some(f) => Some(f),
        None => if expansion_supported(c, ps) {
            None
        } else {
            Some(Failure::IndexOutOfBounds)
        },
    }
}

proof fn lemma_first_abort(c: ContextV, ps: Seq<PieceV>)
    ensures
        first_abort(c, ps) is None <==> forall|k: int| 0 <= k < ps.len() ==> piece_abort(c, #[trigger] ps[k]) is None,
    decreases ps.len(),
{
    if ps.len() > 0 {
        lemma_first_abort(c, ps.drop_last());
        if first_abort(c, ps) is None {
            assert forall|k: int| 0 <= k < ps.len() implies piece_abort(c, #[trigger] ps[k]) is None by {
                if k < ps.len() - 1 {
                    assert(ps.drop_last()[k] == ps[k]);
                }
            }
        }
        if forall|k: int| 0 <= k < ps.len() ==> piece_abort(c, #[trigger] ps[k]) is None {
            assert forall|k: int| 0 <= k < ps.drop_last().len() implies piece_abort(c, #[trigger] ps.drop_last()[k]) is None by {
                assert(ps.drop_last()[k] == ps[k]);
            }
            assert(piece_abort(c, ps[ps.len() - 1]) is None);
        }
    }
}

/// A name bound in a well-formed context names an operand that was given.
proof fn lemma_lookup_in_range(c: ContextV, name: Seq<char>)
    requires
        context_wf(c),
    ensures
        lookup_name(c.names, name) matches Some(k) ==> k < c.args.len(),
{
    if exists|i: int| 0 <= i < c.names.len() && (#[trigger] c.names[i]).0 == name {
        let i = choose|i: int| 0 <= i < c.names.len() && (#[trigger] c.names[i]).0 == name;
        assert(c.names[i].1 < c.args.len());
    }
}

/// Translating a prefix of supported pieces never aborts; it takes one
/// operand per `{}` and only slots that name operands that were given.
proof fn lemma_translate_supported(c: ContextV, ps: Seq<PieceV>, i: int)
    requires
        context_wf(c),
        expansion_supported(c, ps),
        c.args.len() <= usize::MAX,
        0 <= i <= ps.len(),
    ensures
        translate_spec(c, ps.take(i)) matches Ok((ci, _)) && {
            &&& ci.next_argument == c.next_argument + nexts_before(ps, i as nat)
            &&& ci.names == c.names
            &&& ci.args == c.args
            &&& slots_in_range(ci)
        },
    decreases i,
{
    if i == 0 {
        assert(ps.take(0) =~= Seq::<PieceV>::empty());
    } else {
        lemma_translate_supported(c, ps, i - 1);
        assert(ps.take(i).drop_last() =~= ps.take(i - 1));
        assert(ps.take(i).last() == ps[i - 1]);
        let ci = translate_spec(c, ps.take(i - 1)).unwrap().0;
        assert(piece_abort(c, ps[i - 1]) is None);
        assert(operand_asked(c, ps, i - 1) matches Some(k) ==> k < c.args.len());
        match ps[i - 1] {
            PieceV::Argument { position, align, ty, plain } => {
                match position {
                    PositionV::ArgumentNamed(name) => {
                        lemma_lookup_in_range(c, name);
                    },
                    _ => {},
                }
                let key = match position {
                    PositionV::ArgumentNext => Some(ci.next_argument),
                    PositionV::ArgumentIs(n) => Some(n),
                    PositionV::ArgumentNamed(name) => lookup_name(ci.names, name),
                };
                if let Some(k) = key {
                    lemma_fetch_slot(ci.arg_outputs, (k, ty));
                    lemma_fetch_slot(ci.arg_inputs, (k, ty));
                    let (vo, io) = spec_fetch(ci.arg_outputs, (k, ty));
                    let (vi, ii) = spec_fetch(ci.arg_inputs, (k, ty));
                    assert forall|n: int| 0 <= n < vo.len() implies (#[trigger] vo[n]).0 < c.args.len() by {
                        if n < ci.arg_outputs.len() {
                            assert(vo[n] == ci.arg_outputs[n]);
                        } else {
                            assert(vo[n] == (k, ty));
                        }
                    }
                    assert forall|n: int| 0 <= n < vi.len() implies (#[trigger] vi[n]).0 < c.args.len() by {
                        if n < ci.arg_inputs.len() {
                            assert(vi[n] == ci.arg_inputs[n]);
                        } else {
                            assert(vi[n] == (k, ty));
                        }
                    }
                }
            },
            PieceV::Str(_) => {},
        }
        let r = trans_piece_spec(ci, ps[i - 1]);
        assert(r is Ok);
        let c2 = r.unwrap().0;
        assert(translate_spec(c, ps.take(i)) == Ok::<(ContextV, Seq<AsmPieceV>), Failure>(
            (c2, translate_spec(c, ps.take(i - 1)).unwrap().1.push(r.unwrap().1)),
        ));
        assert(nexts_before(ps, i as nat) == nexts_before(ps, (i - 1) as nat) + if ps[i - 1] matches PieceV::Argument {
            position: PositionV::ArgumentNext,
            ..
        } {
            1nat
        } else {
            0nat
        });
        assert(c2.next_argument == c.next_argument + nexts_before(ps, i as nat));
        assert(c2.names == c.names);
        assert(c2.args == c.args);
        assert(slots_in_range(c2));
    }
}

/// The views of a list of pieces.
pub open spec fn pieces_view(ps: Seq<Piece>) -> Seq<PieceV> {
    ps.map_values(|p: Piece| p@)
}

/// The views of a list of translated pieces.
pub open spec fn asm_pieces_view(ps: Seq<AsmPiece>) -> Seq<AsmPieceV> {
    ps.map_values(|p: AsmPiece| p@)
}

/// Translates the pieces in order, stopping at the first failure.
pub open spec fn translate_spec(c: ContextV, ps: Seq<PieceV>) -> Result<(ContextV, Seq<AsmPieceV>), Failure>
    decreases ps.len(),
{
    if ps.len() == 0 {
        Ok((c, Seq::empty()))
    } else {
        match translate_spec(c, ps.drop_last()) {
            Err(f) => Err(f),
            Ok((c1, a1)) => match trans_piece_spec(c1, ps.last()) {
                Err(f) => Err(f),
                Ok((c2, a)) => Ok((c2, a1.push(a))),
            },
        }
    }
}

/// The message for a template the format parser rejected.
pub open spec fn invalid_format_string(error: Seq<char>) -> Seq<char> {
    "invalid format string: "@ + error
}

/// Translates the pieces the format parser produced before its first
/// error, then reports that error, if any.
pub open spec fn format_pieces_spec(c: ContextV, ps: Seq<PieceV>, error: Option<Seq<char>>) -> Result<
    (ContextV, Seq<AsmPieceV>),
    Failure,
> {
    match translate_spec(c, ps) {
        Err(f) => Err(f),
        Ok((c1, a)) => match error {
            None => Ok((c1, a)),
            Some(e) => Ok((
                ContextV {
                    errors: c1.errors.push(diag(Site::Template, invalid_format_string(e), false)),
                    dummy: true,
                    ..c1
                },
                a,
            )),
        },
    }
}

/// Every slot a translated piece names exists.
pub open spec fn pieces_in_range(a: Seq<AsmPieceV>, c: ContextV) -> bool {
    forall|k: int|
        0 <= k < a.len() ==> match #[trigger] a[k] {
            AsmPieceV::Output(n) => n < c.arg_outputs.len(),
            AsmPieceV::Input(n) => n < c.arg_inputs.len(),
            AsmPieceV::Str(_) => true,
        }
}

/// Translation adds at most one slot and one `{}` per piece, and the
/// translated pieces only name slots that exist.
pub proof fn lemma_translate_bounds(c: ContextV, ps: Seq<PieceV>)
    requires
        pieces_in_range(Seq::empty(), c),
    ensures
        translate_spec(c, ps) matches Ok((c1, a)) ==> {
            &&& a.len() == ps.len()
            &&& pieces_in_range(a, c1)
            &&& c1.arg_outputs.len() + c1.arg_inputs.len() <= c.arg_outputs.len() + c.arg_inputs.len()
                + ps.len()
            &&& c1.next_argument <= c.next_argument + ps.len()
            &&& c1.arg_outputs.len() >= c.arg_outputs.len()
            &&& c1.arg_inputs.len() >= c.arg_inputs.len()
            &&& c1.expr == c.expr
            &&& c1.args == c.args
            &&& c1.names == c.names
        },
    decreases ps.len(),
{
    if ps.len() > 0 {
        lemma_translate_bounds(c, ps.drop_last());
        if let Ok((c1, a1)) = translate_spec(c, ps.drop_last()) {
            if let Ok((c2, x)) = trans_piece_spec(c1, ps.last()) {
                let a = a1.push(x);
                assert forall|k: int| 0 <= k < a.len() implies match #[trigger] a[k] {
                    AsmPieceV::Output(n) => n < c2.arg_outputs.len(),
                    AsmPieceV::Input(n) => n < c2.arg_inputs.len(),
                    AsmPieceV::Str(_) => true,
                } by {
                    if k < a1.len() {
                        assert(a[k] == a1[k]);
                        match a1[k] {
                            AsmPieceV::Output(n) => {},
                            AsmPieceV::Input(n) => {},
                            AsmPieceV::Str(_) => {},
                        }
                    }
                }
            }
        }
    }
}

/// The output operand an operand with an output slot writes: its output
/// expression, or its input expression when it has none.
pub open spec fn out_or_in(a: (u64, Option<u64>, Option<usize>)) -> u64 {
    match a.1 {
        Some(o) => o,
        None => a.0,
    }
}

/// The last output slot taken by operand `i`.
pub open spec fn last_output_of(slots: Seq<(usize, Seq<char>)>, i: int) -> Option<int>
    decreases slots.len(),
{
    if slots.len() == 0 {
        None
    } else if slots.last().0 == i {
        Some(slots.len() - 1)
    } else {
        last_output_of(slots.drop_last(), i)
    }
}

/// The operands after the slots are bound: each output slot `(a, ty)`
/// becomes the output operand `"=ty"` of operand `a`, after those given
/// with explicit constraints, and operand `a` remembers its last output
/// operand; then each input slot `(a, ty)` becomes the input operand of
/// operand `a`, constrained by `ty` or, when `a` has an output operand, tied
/// to it by that operand's number. A slot of an operand that was not given
/// aborts.
pub open spec fn bind_spec(c: ContextV) -> Result<ContextV, Failure> {
    let n_out = c.expr.outputs.len();
    if (exists|n: int| 0 <= n < c.arg_outputs.len() && (#[trigger] c.arg_outputs[n]).0 >= c.args.len())
        || (exists|n: int| 0 <= n < c.arg_inputs.len() && (#[trigger] c.arg_inputs[n]).0 >= c.args.len()) {
        Err(Failure::IndexOutOfBounds)
    } else {
        let args2 = Seq::new(
            c.args.len(),
            |i: int|
                (
                    c.args[i].0,
                    c.args[i].1,
                    match last_output_of(c.arg_outputs, i) {
                        Some(m) => Some((n_out + m) as usize),
                        None => c.args[i].2,
                    },
                ),
        );
        let outputs2 = c.expr.outputs + Seq::new(
            c.arg_outputs.len(),
            |n: int| ("="@ + c.arg_outputs[n].1, out_or_in(c.args[c.arg_outputs[n].0 as int])),
        );
        let inputs2 = c.expr.inputs + Seq::new(
            c.arg_inputs.len(),
            |n: int|
                (
                    match args2[c.arg_inputs[n].0 as int].2 {
                        Some(idx) => decimal(idx as nat),
                        None => c.arg_inputs[n].1,
                    },
                    c.args[c.arg_inputs[n].0 as int].0,
                ),
        );
        Ok(ContextV { args: args2, expr: InlineAsmV { outputs: outputs2, inputs: inputs2, ..c.expr }, ..c })
    }
}

/// The text of a translated piece: the text itself, or `$` and the
/// operand number, outputs counted from `off_out` and inputs from `off_in`.
pub open spec fn piece_text(p: AsmPieceV, off_out: int, off_in: int) -> Seq<char> {
    match p {
        AsmPieceV::Str(s) => s,
        AsmPieceV::Output(n) => "$"@ + decimal((n + off_out) as nat),
        AsmPieceV::Input(n) => "$"@ + decimal((n + off_in) as nat),
    }
}

/// The texts of the translated pieces, one after another.
pub open spec fn transcribe_spec(ps: Seq<AsmPieceV>, off_out: int, off_in: int) -> Seq<char>
    decreases ps.len(),
{
    if ps.len() == 0 {
        Seq::empty()
    } else {
        transcribe_spec(ps.drop_last(), off_out, off_in) + piece_text(ps.last(), off_out, off_in)
    }
}

/// What the expansion produces: the inline assembly, unless an error was
/// reported, and the diagnostics.
pub open spec fn expand_spec(c: ContextV, ps: Seq<PieceV>, error: Option<Seq<char>>) -> Result<
    (Option<InlineAsmV>, Seq<DiagnosticV>),
    Failure,
> {
    match format_pieces_spec(c, ps, error) {
        Err(f) => Err(f),
        Ok((c1, a)) => {
            let off_out = c1.expr.outputs.len() as int;
            let off_in = off_out + c1.arg_outputs.len() + c1.expr.inputs.len();
            match bind_spec(c1) {
                Err(f) => Err(f),
                Ok(c2) => {
                    let text = c2.asm_str + transcribe_spec(a, off_out, off_in);
                    Ok(
                        (
                            if c2.dummy {
                                None
                            } else {
                                Some(InlineAsmV { template: text, ..c2.expr })
                            },
                            c2.errors,
                        ),
                    )
                },
            }
        },
    }
}

/// Operand `m` of an inline assembly in the numbering that `$m` in its
/// template uses: the outputs first, then the inputs.
pub open spec fn operand(a: InlineAsmV, m: int) -> (Seq<char>, u64) {
    if m < a.outputs.len() {
        a.outputs[m]
    } else {
        a.inputs[m - a.outputs.len()]
    }
}

/// The numbers written into the template name the operands that the
/// placeholders asked for. In the assembly an expansion gives, the `$m`
/// written for a placeholder that took output slot `n` names the output
/// operand bound from that slot: constrained `=ty` and writing the output
/// expression of the slot's operand (its input expression when it has
/// none). The `$m` written for a placeholder that took input slot `n`
/// names the input operand bound from that slot: it reads the slot's
/// operand, constrained by `ty` or tied to that operand's output.
pub proof fn lemma_operand_numbers(c: ContextV, ps: Seq<PieceV>, error: Option<Seq<char>>)
    ensures
        ({
            match (format_pieces_spec(c, ps, error), expand_spec(c, ps, error)) {
                (Ok((c1, a)), Ok((Some(ia), _))) => {
                    let off_out = c1.expr.outputs.len() as int;
                    let off_in = off_out + c1.arg_outputs.len() + c1.expr.inputs.len();
                    let c2 = bind_spec(c1).unwrap();
                    forall|k: int|
                        0 <= k < a.len() ==> match #[trigger] a[k] {
                            AsmPieceV::Output(n) => {
                                &&& n < c1.arg_outputs.len()
                                &&& operand(ia, off_out + n) == (
                                    "="@ + c1.arg_outputs[n as int].1,
                                    out_or_in(c1.args[c1.arg_outputs[n as int].0 as int]),
                                )
                            },
                            AsmPieceV::Input(n) => {
                                &&& n < c1.arg_inputs.len()
                                &&& operand(ia, off_in + n) == (
                                    match c2.args[c1.arg_inputs[n as int].0 as int].2 {
                                        Some(idx) => decimal(idx as nat),
                                        None => c1.arg_inputs[n as int].1,
                                    },
                                    c1.args[c1.arg_inputs[n as int].0 as int].0,
                                )
                            },
                            AsmPieceV::Str(_) => true,
                        }
                },
                _ => true,
            }
        }),
{
    assert(pieces_in_range(Seq::empty(), c));
    lemma_translate_bounds(c, ps);
    match (format_pieces_spec(c, ps, error), expand_spec(c, ps, error)) {
        (Ok((c1, a)), Ok((Some(ia), _))) => {
            let off_out = c1.expr.outputs.len() as int;
            let off_in = off_out + c1.arg_outputs.len() + c1.expr.inputs.len();
            let c2 = bind_spec(c1).unwrap();
            assert(ia.outputs == c2.expr.outputs && ia.inputs == c2.expr.inputs);
            assert forall|k: int| 0 <= k < a.len() implies match #[trigger] a[k] {
                AsmPieceV::Output(n) => {
                    &&& n < c1.arg_outputs.len()
                    &&& operand(ia, off_out + n) == (
                        "="@ + c1.arg_outputs[n as int].1,
                        out_or_in(c1.args[c1.arg_outputs[n as int].0 as int]),
                    )
                },
                AsmPieceV::Input(n) => {
                    &&& n < c1.arg_inputs.len()
                    &&& operand(ia, off_in + n) == (
                        match c2.args[c1.arg_inputs[n as int].0 as int].2 {
                            Some(idx) => decimal(idx as nat),
                            None => c1.arg_inputs[n as int].1,
                        },
                        c1.args[c1.arg_inputs[n as int].0 as int].0,
                    )
                },
                AsmPieceV::Str(_) => true,
            } by {
                match a[k] {
                    AsmPieceV::Output(n) => {},
                    AsmPieceV::Input(n) => {},
                    AsmPieceV::Str(_) => {},
                }
            }
        },
        _ => {},
    }
}

/// The inline assembly the macro expands to, unless an error was
/// reported, and the diagnostics reported.
#[derive(Debug)]
pub struct Expansion {
    pub result: Option<InlineAsm>,
    pub errors: Vec<Diagnostic>,
}

/// The views of a list of diagnostics.
pub open spec fn diagnostics_view(ds: Seq<Diagnostic>) -> Seq<DiagnosticV> {
    ds.map_values(|d: Diagnostic| d@)
}

/// The view of an optional error text.
pub open spec fn error_view(e: Option<String>) -> Option<Seq<char>> {
    match e {
        Some(s) => Some(s@),
        None => None,
    }
}

impl Context {
    /// Translates the pieces the format parser produced before its first
    /// error, in order, then reports that error, if any.
    pub fn format_pieces(&mut self, pieces: &Vec<Piece>, error: &Option<String>) -> (r: Vec<AsmPiece>)
        requires
            context_wf(old(self)@),
            old(self).next_argument + pieces@.len() <= usize::MAX,
            forall|k: int| 0 <= k < pieces@.len() ==> piece_abort(old(self)@, #[trigger] pieces@[k]@) is None,
        ensures
            format_pieces_spec(old(self)@, pieces_view(pieces@), error_view(*error)) == Ok::<
                (ContextV, Seq<AsmPieceV>),
                Failure,
            >((final(self)@, asm_pieces_view(r@))),
            context_wf(final(self)@),
    {
        let ghost c0 = self@;
        let ghost pv = pieces_view(pieces@);
        let mut out: Vec<AsmPiece> = Vec::new();
        let mut i: usize = 0;
        proof {
            assert(pv.take(0) =~= Seq::<PieceV>::empty());
            assert(asm_pieces_view(out@) =~= Seq::<AsmPieceV>::empty());
            assert(pieces_in_range(Seq::empty(), c0));
        }
        while i < pieces.len()
            invariant
                pv == pieces_view(pieces@),
                c0 == old(self)@,
                i <= pieces@.len(),
                c0.next_argument + pieces@.len() <= usize::MAX,
                pieces_in_range(Seq::empty(), c0),
                forall|k: int| 0 <= k < pieces@.len() ==> piece_abort(c0, #[trigger] pieces@[k]@) is None,
                translate_spec(c0, pv.take(i as int)) == Ok::<(ContextV, Seq<AsmPieceV>), Failure>(
                    (self@, asm_pieces_view(out@)),
                ),
                context_wf(self@),
            decreases pieces@.len() - i,
        {
            proof {
                lemma_translate_bounds(c0, pv.take(i as int));
                assert(pv.take(i + 1).drop_last() =~= pv.take(i as int));
                assert(pv.take(i + 1).last() == pieces@[i as int]@);
            }
            let ghost before = self@;
            let ghost out_before = asm_pieces_view(out@);
            assert(self@.names == c0.names);
            assert(piece_abort(c0, pieces@[i as int]@) is None);
            let p = self.trans_piece(&pieces[i]);
            out.push(p);
            proof {
                assert(asm_pieces_view(out@) =~= out_before.push(p@));
            }
            i += 1;
        }
        proof {
            assert(pv.take(pieces@.len() as int) =~= pv);
        }
        let ghost before_err = self@.errors;
        match error {
            Some(e) => {
                let msg = concat2("invalid format string: ", e.as_str());
                self.errors.push(Diagnostic { site: Site::Template, message: msg, note: false });
                self.dummy = true;
                proof {
                    let d = diag(Site::Template, invalid_format_string(e@), false);
                    assert(self@.errors =~= before_err.push(d));
                }
            },
            None => {},
        }
        out
    }
}

/// The output slot operand `i` holds after the first `n` output slots are
/// bound.
pub open spec fn tied_after(c: ContextV, n: int, i: int) -> Option<usize> {
    match last_output_of(c.arg_outputs.take(n), i) {
        Some(m) => Some((c.expr.outputs.len() + m) as usize),
        None => c.args[i].2,
    }
}

proof fn lemma_last_output_step(slots: Seq<(usize, Seq<char>)>, n: int, i: int)
    requires
        0 <= n < slots.len(),
    ensures
        last_output_of(slots.take(n + 1), i) == if slots[n].0 == i {
            Some(n)
        } else {
            last_output_of(slots.take(n), i)
        },
{
    assert(slots.take(n + 1).drop_last() =~= slots.take(n));
}

impl Context {
    /// Binds the output slots, then the input slots, to operands.
    pub fn bind_operands(&mut self)
        requires
            slots_in_range(old(self)@),
        ensures
            bind_spec(old(self)@) == Ok::<ContextV, Failure>(final(self)@),
    {
        let ghost c0 = self@;
        let len = self.args.len();
        let n_out = self.expr.outputs.len();
        let mut n: usize = 0;
        proof {
            assert(c0.arg_outputs.take(0) =~= Seq::<(usize, Seq<char>)>::empty());
        }
        while n < self.arg_outputs.len()
            invariant
                c0 == old(self)@,
                slots_in_range(c0),
                len == c0.args.len(),
                n_out == c0.expr.outputs.len(),
                n <= c0.arg_outputs.len(),
                keys_view(self.arg_outputs@) == c0.arg_outputs,
                self@.asm_str == c0.asm_str,
                self@.dummy == c0.dummy,
                self@.errors == c0.errors,
                self@.arg_inputs == c0.arg_inputs,
                self@.names == c0.names,
                self@.next_argument == c0.next_argument,
                self@.expr.template == c0.expr.template,
                self@.expr.clobbers == c0.expr.clobbers,
                self@.expr.inputs == c0.expr.inputs,
                self@.expr.volatile == c0.expr.volatile,
                self@.expr.alignstack == c0.expr.alignstack,
                self@.expr.dialect == c0.expr.dialect,
                forall|m: int| 0 <= m < n ==> (#[trigger] c0.arg_outputs[m]).0 < len,
                self@.args.len() == len,
                forall|i: int|
                    0 <= i < len ==> (#[trigger] self@.args[i]).0 == c0.args[i].0 && self@.args[i].1
                        == c0.args[i].1 && self@.args[i].2 == tied_after(c0, n as int, i),
                self@.expr.outputs.len() == n_out + n,
                forall|m: int| 0 <= m < n_out ==> #[trigger] self@.expr.outputs[m] == c0.expr.outputs[m],
                forall|m: int|
                    0 <= m < n ==> #[trigger] self@.expr.outputs[n_out + m] == ("="@ + c0.arg_outputs[m].1, out_or_in(
                        c0.args[c0.arg_outputs[m].0 as int],
                    )),
            decreases c0.arg_outputs.len() - n,
        {
            let a = self.arg_outputs[n].0;
            assert(a == c0.arg_outputs[n as int].0);
            let slot = self.expr.outputs.len();
            let (e, out, _) = self.args[a];
            let ghost args_before = self@.args;
            let ghost outs_before = self@.expr.outputs;
            self.args.set(a, (e, out, Some(slot)));
            let c = concat2("=", self.arg_outputs[n].1.as_str());
            let x = match out {
                Some(o) => o,
                None => e,
            };
            self.expr.outputs.push((c, x));
            proof {
                assert(self@.expr.outputs =~= outs_before.push((c@, x)));
                assert forall|i: int| 0 <= i < len implies (#[trigger] self@.args[i]).0 == c0.args[i].0
                    && self@.args[i].1 == c0.args[i].1 && self@.args[i].2 == tied_after(c0, n + 1, i) by {
                    lemma_last_output_step(c0.arg_outputs, n as int, i);
                    if i != a {
                        assert(self@.args[i] == args_before[i]);
                    }
                }
                assert(c0.arg_outputs[n as int].1 == self.arg_outputs@[n as int].1@);
                assert(self@.expr.outputs[n_out + n] == ("="@ + c0.arg_outputs[n as int].1, out_or_in(
                    c0.args[c0.arg_outputs[n as int].0 as int],
                )));
            }
            n += 1;
        }
        proof {
            assert(c0.arg_outputs.take(n as int) =~= c0.arg_outputs);
        }
        let ghost args2 = self@.args;
        let ghost outputs2 = self@.expr.outputs;
        let ghost exp_args = Seq::new(
            c0.args.len(),
            |i: int|
                (
                    c0.args[i].0,
                    c0.args[i].1,
                    match last_output_of(c0.arg_outputs, i) {
                        Some(m) => Some((c0.expr.outputs.len() + m) as usize),
                        None => c0.args[i].2,
                    },
                ),
        );
        let ghost exp_outputs = c0.expr.outputs + Seq::new(
            c0.arg_outputs.len(),
            |n: int| ("="@ + c0.arg_outputs[n].1, out_or_in(c0.args[c0.arg_outputs[n].0 as int])),
        );
        proof {
            assert forall|i: int| 0 <= i < len implies #[trigger] args2[i] == exp_args[i] by {
                assert(tied_after(c0, c0.arg_outputs.len() as int, i) == exp_args[i].2);
            }
            assert(args2 =~= exp_args);
            assert forall|k: int| 0 <= k < outputs2.len() implies #[trigger] outputs2[k] == exp_outputs[k] by {
                if k >= n_out {
                    let m = k - n_out;
                    assert(self@.expr.outputs[n_out + m] == ("="@ + c0.arg_outputs[m].1, out_or_in(
                        c0.args[c0.arg_outputs[m].0 as int],
                    )));
                }
            }
            assert(outputs2 =~= exp_outputs);
        }
        let n_in = self.expr.inputs.len();
        let mut n: usize = 0;
        while n < self.arg_inputs.len()
            invariant
                c0 == old(self)@,
                slots_in_range(c0),
                len == c0.args.len(),
                n_in == c0.expr.inputs.len(),
                n <= c0.arg_inputs.len(),
                keys_view(self.arg_inputs@) == c0.arg_inputs,
                self@.asm_str == c0.asm_str,
                self@.dummy == c0.dummy,
                self@.errors == c0.errors,
                self@.arg_outputs == c0.arg_outputs,
                self@.names == c0.names,
                self@.next_argument == c0.next_argument,
                self@.expr.template == c0.expr.template,
                self@.expr.clobbers == c0.expr.clobbers,
                self@.expr.outputs == outputs2,
                self@.expr.volatile == c0.expr.volatile,
                self@.expr.alignstack == c0.expr.alignstack,
                self@.expr.dialect == c0.expr.dialect,
                self@.args == args2,
                args2.len() == len,
                forall|m: int| 0 <= m < n ==> (#[trigger] c0.arg_inputs[m]).0 < len,
                self@.expr.inputs.len() == n_in + n,
                forall|m: int| 0 <= m < n_in ==> #[trigger] self@.expr.inputs[m] == c0.expr.inputs[m],
                forall|m: int|
                    0 <= m < n ==> #[trigger] self@.expr.inputs[n_in + m] == (
                        match args2[c0.arg_inputs[m].0 as int].2 {
                            Some(idx) => decimal(idx as nat),
                            None => c0.arg_inputs[m].1,
                        },
                        c0.args[c0.arg_inputs[m].0 as int].0,
                    ),
                forall|i: int| 0 <= i < len ==> (#[trigger] args2[i]).0 == c0.args[i].0,
            decreases c0.arg_inputs.len() - n,
        {
            let a = self.arg_inputs[n].0;
            assert(a == c0.arg_inputs[n as int].0);
            let (e, _, tied) = self.args[a];
            let c = match tied {
                Some(idx) => crate::asm_format::text::to_decimal(idx),
                None => self.arg_inputs[n].1.clone(),
            };
            let ghost ins_before = self@.expr.inputs;
            self.expr.inputs.push((c, e));
            proof {
                assert(self@.expr.inputs =~= ins_before.push((c@, e)));
            }
            n += 1;
        }
        proof {
            let c = bind_spec(c0);
            assert(!(exists|k: int| 0 <= k < c0.arg_outputs.len() && (#[trigger] c0.arg_outputs[k]).0 >= c0.args.len()));
            assert(!(exists|k: int| 0 <= k < c0.arg_inputs.len() && (#[trigger] c0.arg_inputs[k]).0 >= c0.args.len()));
            let expected = bind_spec(c0).unwrap();
            assert(self@.args =~= expected.args);
            assert(self@.expr.outputs =~= expected.expr.outputs);
            assert forall|k: int| 0 <= k < self@.expr.inputs.len() implies #[trigger] self@.expr.inputs[k]
                == expected.expr.inputs[k] by {
                if k >= n_in {
                    let m = k - n_in;
                    assert(self@.expr.inputs[n_in + m] == (
                        match args2[c0.arg_inputs[m].0 as int].2 {
                            Some(idx) => decimal(idx as nat),
                            None => c0.arg_inputs[m].1,
                        },
                        c0.args[c0.arg_inputs[m].0 as int].0,
                    ));
                }
            }
            assert(self@.expr.inputs =~= expected.expr.inputs);
        }
    }
}

impl Context {
    /// Appends the text of each translated piece to the template.
    pub fn transcribe(&mut self, pieces: &Vec<AsmPiece>, off_out: usize, off_in: usize)
        requires
            forall|k: int|
                0 <= k < pieces@.len() ==> match #[trigger] pieces@[k]@ {
                    AsmPieceV::Output(n) => n + off_out <= usize::MAX,
                    AsmPieceV::Input(n) => n + off_in <= usize::MAX,
                    AsmPieceV::Str(_) => true,
                },
        ensures
            final(self)@ == (ContextV {
                asm_str: old(self)@.asm_str + transcribe_spec(asm_pieces_view(pieces@), off_out as int, off_in as int),
                ..old(self)@
            }),
    {
        let ghost pv = asm_pieces_view(pieces@);
        let mut i: usize = 0;
        while i < pieces.len()
            invariant
                pv == asm_pieces_view(pieces@),
                i <= pieces@.len(),
                forall|k: int|
                    0 <= k < pieces@.len() ==> match #[trigger] pieces@[k]@ {
                        AsmPieceV::Output(n) => n + off_out <= usize::MAX,
                        AsmPieceV::Input(n) => n + off_in <= usize::MAX,
                        AsmPieceV::Str(_) => true,
                    },
                self@ == (ContextV {
                    asm_str: old(self)@.asm_str + transcribe_spec(pv.take(i as int), off_out as int, off_in as int),
                    ..old(self)@
                }),
            decreases pieces@.len() - i,
        {
            let ghost before = self@.asm_str;
            proof {
                assert(pv.take(i + 1).drop_last() =~= pv.take(i as int));
                assert(pv.take(i + 1).last() == pieces@[i as int]@);
            }
            match &pieces[i] {
                AsmPiece::Str(s) => {
                    self.asm_str.append(s.as_str());
                },
                AsmPiece::Output(n) => {
                    self.asm_str.append("$");
                    push_decimal(&mut self.asm_str, *n + off_out);
                },
                AsmPiece::Input(n) => {
                    self.asm_str.append("$");
                    push_decimal(&mut self.asm_str, *n + off_in);
                },
            }
            proof {
                assert(self@.asm_str =~= old(self)@.asm_str + transcribe_spec(
                    pv.take(i + 1),
                    off_out as int,
                    off_in as int,
                ));
            }
            i += 1;
        }
        proof {
            assert(pv.take(pieces@.len() as int) =~= pv);
        }
    }

    /// Finishes the expansion: the template becomes the assembly text, and
    /// no assembly is given when an error was reported.
    pub fn into_expr(self) -> (x: Expansion)
        ensures
            diagnostics_view(x.errors@) == self@.errors,
            self@.dummy ==> x.result is None,
            !self@.dummy ==> (x.result matches Some(a) && a@ == (InlineAsmV { template: self@.asm_str, ..self@.expr })),
    {
        let Context { asm_str, expr, dummy, errors, .. } = self;
        let mut expr = expr;
        expr.template = asm_str;
        if dummy {
            Expansion { result: None, errors }
        } else {
            Expansion { result: Some(expr), errors }
        }
    }
}

/// Finishes the expansion once the options and operands are read: the
/// template pieces the format parser produced before `format_error` are
/// translated, the slots bound to operands and the template written with
/// `$n` operand numbers. The pieces must not abort the expansion
/// (`expansion_supported`; `find_abort` tells which abort they would meet).
pub fn expand_asm_format(cx: Context, pieces: &Vec<Piece>, format_error: &Option<String>) -> (x: Expansion)
    requires
        context_wf(cx@),
        expansion_supported(cx@, pieces_view(pieces@)),
        cx.next_argument + pieces@.len() <= usize::MAX,
        cx@.expr.outputs.len() + cx@.expr.inputs.len() + cx@.arg_outputs.len() + cx@.arg_inputs.len()
            + pieces@.len() <= usize::MAX,
    ensures
        expand_spec(cx@, pieces_view(pieces@), error_view(*format_error)) matches Ok((result, errors)) && {
            &&& diagnostics_view(x.errors@) == errors
            &&& match result {
                None => x.result is None,
                Some(a) => x.result matches Some(ia) && ia@ == a,
            }
        },
{
    let ghost c0 = cx@;
    let mut cx = cx;
    proof {
        assert(pieces_in_range(Seq::empty(), c0));
        lemma_translate_bounds(c0, pieces_view(pieces@));
    }
    proof {
        let pv = pieces_view(pieces@);
        assert(c0.args.len() == cx.args.len());
        lemma_translate_supported(c0, pv, pv.len() as int);
        assert(pv.take(pv.len() as int) =~= pv);
        assert forall|k: int| 0 <= k < pieces@.len() implies piece_abort(c0, #[trigger] pieces@[k]@) is None by {
            assert(pv[k] == pieces@[k]@);
        }
    }
    let translated = cx.format_pieces(pieces, format_error);
    let off_out = cx.expr.outputs.len();
    let off_in = off_out + cx.arg_outputs.len() + cx.expr.inputs.len();
    let ghost c1 = cx@;
    cx.bind_operands();
    proof {
        assert forall|k: int| 0 <= k < translated@.len() implies match #[trigger] translated@[k]@ {
            AsmPieceV::Output(n) => n + off_out <= usize::MAX,
            AsmPieceV::Input(n) => n + off_in <= usize::MAX,
            AsmPieceV::Str(_) => true,
        } by {
            assert(asm_pieces_view(translated@)[k] == translated@[k]@);
        }
    }
    cx.transcribe(&translated, off_out, off_in);
    cx.into_expr()
}

/// How an expansion of `pieces` from `cx` would abort, if it would: with
/// the abort of the first piece whose translation aborts, or else with
/// `IndexOutOfBounds` when a slot would name an operand that was not given.
/// It gives `None` exactly when `expand_asm_format` may be called.
pub fn find_abort(cx: &Context, pieces: &Vec<Piece>) -> (r: Option<Failure>)
    requires
        context_wf(cx@),
        cx.next_argument + pieces@.len() <= usize::MAX,
    ensures
        r == expansion_abort(cx@, pieces_view(pieces@)),
        r is None <==> expansion_supported(cx@, pieces_view(pieces@)),
{
    let ghost c = cx@;
    let ghost pv = pieces_view(pieces@);
    let mut first: Option<Failure> = None;
    let mut in_range = true;
    let mut next = cx.next_argument;
    let nargs = cx.args.len();
    let mut i: usize = 0;
    proof {
        assert(pv.take(0) =~= Seq::<PieceV>::empty());
    }
    while i < pieces.len()
        invariant
            c == cx@,
            context_wf(c),
            pv == pieces_view(pieces@),
            i <= pieces@.len(),
            cx.next_argument + pieces@.len() <= usize::MAX,
            nargs == c.args.len(),
            first == first_abort(c, pv.take(i as int)),
            next == c.next_argument + nexts_before(pv, i as nat),
            nexts_before(pv, i as nat) <= i,
            in_range <==> forall|k: int|
                0 <= k < i ==> (#[trigger] operand_asked(c, pv, k) matches Some(j) ==> j < c.args.len()),
        decreases pieces@.len() - i,
    {
        proof {
            assert(pv.take(i + 1).drop_last() =~= pv.take(i as int));
            assert(pv.take(i + 1).last() == pv[i as int]);
            assert(pv[i as int] == pieces@[i as int]@);
        }
        match &pieces[i] {
            Piece::Str(_) => {},
            Piece::Argument(arg) => {
                let f = &arg.format;
                let plain = match (&f.fill, &f.precision, &f.width) {
                    (None, Count::CountImplied, Count::CountImplied) => f.flags == 0,
                    _ => false,
                };
                let abort = if !plain {
                    Some(Failure::MethodsNotImplemented)
                } else {
                    let unknown_name = match &arg.position {
                        Position::ArgumentNamed(name) => cx.find_name(name).is_none(),
                        _ => false,
                    };
                    if unknown_name {
                        None
                    } else {
                        match f.align {
                            Alignment::AlignLeft => None,
                            Alignment::AlignUnknown => None,
                            _ => Some(Failure::InvalidAlign),
                        }
                    }
                };
                if first.is_none() {
                    first = abort;
                }
                match &arg.position {
                    Position::ArgumentIs(n) => {
                        if *n >= nargs {
                            in_range = false;
                        }
                    },
                    Position::ArgumentNext => {
                        if next >= nargs {
                            in_range = false;
                        }
                        next = next + 1;
                    },
                    Position::ArgumentNamed(_) => {},
                }
            },
        }
        proof {
            let _ = operand_asked(c, pv, i as int);
            if in_range {
                assert forall|k: int| 0 <= k < i + 1 implies (#[trigger] operand_asked(c, pv, k) matches Some(j)
                    ==> j < c.args.len()) by {}
            }
        }
        i += 1;
    }
    let mut n: usize = 0;
    let ghost in_pieces = in_range;
    while n < cx.arg_outputs.len()
        invariant
            c == cx@,
            nargs == c.args.len(),
            n <= c.arg_outputs.len(),
            in_range <==> (in_pieces && forall|m: int| 0 <= m < n ==> (#[trigger] c.arg_outputs[m]).0 < c.args.len()),
        decreases c.arg_outputs.len() - n,
    {
        assert(cx.arg_outputs@[n as int].0 == c.arg_outputs[n as int].0);
        if cx.arg_outputs[n].0 >= nargs {
            in_range = false;
        }
        n += 1;
    }
    let ghost in_outs = in_range;
    let mut n: usize = 0;
    while n < cx.arg_inputs.len()
        invariant
            c == cx@,
            nargs == c.args.len(),
            n <= c.arg_inputs.len(),
            in_range <==> (in_outs && forall|m: int| 0 <= m < n ==> (#[trigger] c.arg_inputs[m]).0 < c.args.len()),
        decreases c.arg_inputs.len() - n,
    {
        assert(cx.arg_inputs@[n as int].0 == c.arg_inputs[n as int].0);
        if cx.arg_inputs[n].0 >= nargs {
            in_range = false;
        }
        n += 1;
    }
    proof {
        assert(pv.take(pv.len() as int) =~= pv);
        lemma_first_abort(c, pv);
    }
    match first {
        Some(f) => Some(f),
        None => {
            if in_range {
                None
            } else {
                Some(Failure::IndexOutOfBounds)
            }
        },
    }
}

} // verus!
