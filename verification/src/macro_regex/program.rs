//! Compiling matchers into VM instructions.
use vstd::prelude::*;
use crate::macro_regex::syntax::{Matcher, NtKind, Token};

verus! {

/// One VM instruction.
#[derive(Debug, Clone, Copy, PartialEq, Eq, Structural)]
pub enum Inst {
    /// The thread that reaches this instruction has matched.
    Match,
    /// Matches one token equal to the given one.
    OneTerminal(Token),
    /// Matches a fragment of the given kind (name, kind, match slot).
    OneNonterminal(u64, NtKind, usize),
    /// Saves the current position into the given slot.
    Save(usize),
    /// Continues at the given instruction.
    Jump(usize),
    /// Continues at both given instructions, the first one preferred.
    Split(usize, usize),
}

/// A compiled matcher: its instruction list.
#[derive(Debug, Clone, PartialEq, Eq)]
pub struct Program {
    /// A sequence of instructions.
    pub insts: Vec<Inst>,
}

/// The instructions that one matcher compiles to when its code starts at
/// index `base`. Jump targets are absolute indices.
///
/// - a token becomes `OneTerminal`, a nonterminal `OneNonterminal`;
/// - a sequence that may repeat zero times becomes
///   `Split(body, after); body; Jump(split)`;
/// - a sequence that repeats at least once becomes
///   `body; Split(body, after)`.
pub open spec fn compile_matcher(m: Matcher, base: int) -> Seq<Inst>
    decreases m,
{
    match m {
        Matcher::MatchTok(tok) => seq![Inst::OneTerminal(tok)],
        Matcher::MatchNonterminal(name, kind, pos) => seq![Inst::OneNonterminal(name, kind, pos)],
        Matcher::MatchSeq(body, _sep, zero_ok, _lo, _hi) => {
            if zero_ok {
                let code = compile_matchers(body@, base + 1);
                seq![Inst::Split((base + 1) as usize, (base + 2 + code.len()) as usize)] + code
                    + seq![Inst::Jump(base as usize)]
            } else {
                let code = compile_matchers(body@, base);
                code + seq![Inst::Split(base as usize, (base + code.len() + 1) as usize)]
            }
        },
    }
}

/// The instructions of a list of matchers, compiled one after another from
/// index `base`.
pub open spec fn compile_matchers(ms: Seq<Matcher>, base: int) -> Seq<Inst>
    decreases ms,
{
    if ms.len() == 0 {
        Seq::empty()
    } else {
        let prefix = compile_matchers(ms.drop_last(), base);
        prefix + compile_matcher(ms.last(), base + prefix.len())
    }
}

/// The program of a matcher list: `Save(0)`, the matchers' code from index
/// 1, then `Save(1)` and `Match`.
pub open spec fn program_of(ms: Seq<Matcher>) -> Seq<Inst> {
    seq![Inst::Save(0)] + compile_matchers(ms, 1) + seq![Inst::Save(1), Inst::Match]
}

/// Instruction `inst`, standing at index `i` of a program of `n`
/// instructions, only leads to instructions of that program: the one after
/// it, for those that fall through, or its jump targets.
pub open spec fn inst_wf(inst: Inst, i: int, n: int) -> bool {
    match inst {
        Inst::Match => true,
        Inst::OneTerminal(_) => i + 1 < n,
        Inst::OneNonterminal(_, _, _) => i + 1 < n,
        Inst::Save(_) => i + 1 < n,
        Inst::Jump(t) => t < n,
        Inst::Split(a, b) => a < n && b < n,
    }
}

/// A program the VM can run: it is not empty and no instruction leads
/// outside it.
pub open spec fn program_wf(insts: Seq<Inst>) -> bool {
    &&& insts.len() > 0
    &&& forall|i: int| 0 <= i < insts.len() ==> #[trigger] inst_wf(insts[i], i, insts.len() as int)
}

/// Code placed at `base` whose jump targets stay within `[base, base + len]`
/// and which holds no `Save` and no `Match`.
pub open spec fn code_closed(code: Seq<Inst>, base: int) -> bool {
    forall|k: int|
        0 <= k < code.len() ==> match #[trigger] code[k] {
            Inst::Jump(t) => base <= t <= base + code.len(),
            Inst::Split(a, b) => base <= a <= base + code.len() && base <= b <= base + code.len(),
            Inst::Save(_) => false,
            Inst::Match => false,
            _ => true,
        }
}

proof fn lemma_matcher_closed(m: Matcher, base: int)
    requires
        0 <= base,
        base + compile_matcher(m, base).len() <= usize::MAX,
    ensures
        code_closed(compile_matcher(m, base), base),
    decreases m,
{
    match m {
        Matcher::MatchSeq(body, _sep, zero_ok, _lo, _hi) => {
            if zero_ok {
                let code = compile_matchers(body@, base + 1);
                lemma_matchers_closed(body@, base + 1);
                let all = compile_matcher(m, base);
                assert forall|k: int| 0 <= k < all.len() implies match #[trigger] all[k] {
                    Inst::Jump(t) => base <= t <= base + all.len(),
                    Inst::Split(a, b) => base <= a <= base + all.len() && base <= b <= base + all.len(),
                    Inst::Save(_) => false,
                    Inst::Match => false,
                    _ => true,
                } by {
                    if 1 <= k < 1 + code.len() {
                        assert(all[k] == code[k - 1]);
                    }
                }
            } else {
                let code = compile_matchers(body@, base);
                lemma_matchers_closed(body@, base);
                let all = compile_matcher(m, base);
                assert forall|k: int| 0 <= k < all.len() implies match #[trigger] all[k] {
                    Inst::Jump(t) => base <= t <= base + all.len(),
                    Inst::Split(a, b) => base <= a <= base + all.len() && base <= b <= base + all.len(),
                    Inst::Save(_) => false,
                    Inst::Match => false,
                    _ => true,
                } by {
                    if k < code.len() {
                        assert(all[k] == code[k]);
                    }
                }
            }
        },
        _ => {},
    }
}

proof fn lemma_matchers_closed(ms: Seq<Matcher>, base: int)
    requires
        0 <= base,
        base + compile_matchers(ms, base).len() <= usize::MAX,
    ensures
        code_closed(compile_matchers(ms, base), base),
    decreases ms,
{
    if ms.len() > 0 {
        let prefix = compile_matchers(ms.drop_last(), base);
        let last = compile_matcher(ms.last(), base + prefix.len());
        lemma_matchers_closed(ms.drop_last(), base);
        lemma_matcher_closed(ms.last(), base + prefix.len());
        let all = compile_matchers(ms, base);
        assert forall|k: int| 0 <= k < all.len() implies match #[trigger] all[k] {
            Inst::Jump(t) => base <= t <= base + all.len(),
            Inst::Split(a, b) => base <= a <= base + all.len() && base <= b <= base + all.len(),
            Inst::Save(_) => false,
            Inst::Match => false,
            _ => true,
        } by {
            if k < prefix.len() {
                assert(all[k] == prefix[k]);
            } else {
                assert(all[k] == last[k - prefix.len()]);
            }
        }
    }
}

/// A compiled program starts with `Save(0)` and ends with `Save(1)` and
/// `Match`; no other instruction is a `Save` or a `Match`, so a thread
/// matches only at the end; and no instruction leads outside the program.
pub proof fn lemma_program_shape(ms: Seq<Matcher>)
    requires
        program_of(ms).len() <= usize::MAX,
    ensures
        ({
            let p = program_of(ms);
            let l = p.len() as int;
            &&& l >= 3
            &&& p[0] == Inst::Save(0)
            &&& p[l - 2] == Inst::Save(1)
            &&& p[l - 1] == Inst::Match
            &&& forall|i: int| 1 <= i < l - 2 ==> !(#[trigger] p[i] is Save) && !(p[i] is Match)
            &&& program_wf(p)
        }),
{
    let code = compile_matchers(ms, 1);
    let p = program_of(ms);
    lemma_matchers_closed(ms, 1);
    lemma_program_wf(ms);
    assert forall|i: int| 1 <= i < p.len() - 2 implies !(#[trigger] p[i] is Save) && !(p[i] is Match) by {
        assert(p[i] == code[i - 1]);
    }
}

/// Every compiled program can be run: its instructions only lead to
/// instructions of the program.
pub proof fn lemma_program_wf(ms: Seq<Matcher>)
    requires
        program_of(ms).len() <= usize::MAX,
    ensures
        program_wf(program_of(ms)),
{
    let code = compile_matchers(ms, 1);
    let prog = program_of(ms);
    lemma_matchers_closed(ms, 1);
    assert forall|i: int| 0 <= i < prog.len() implies #[trigger] inst_wf(prog[i], i, prog.len() as int) by {
        if 1 <= i < 1 + code.len() {
            assert(prog[i] == code[i - 1]);
        }
    }
}

struct Compiler {
    insts: Vec<Inst>,
    names: Vec<Option<String>>,
}

impl Compiler {
    /// Appends the code of one matcher.
    fn compile(&mut self, ast: &Matcher)
        ensures
            final(self).insts@ == old(self).insts@ + compile_matcher(*ast, old(self).insts@.len() as int),
            final(self).names@ == old(self).names@,
        decreases ast,
    {
        match ast {
            Matcher::MatchTok(tok) => {
                self.push(Inst::OneTerminal(*tok));
            },
            Matcher::MatchSeq(seq, _sep, zero_ok, _lo, _hi) => {
                if *zero_ok {
                    let j1 = self.insts.len();
                    let split = self.empty_split();
                    let j2 = self.insts.len();
                    self.compile_all(seq);
                    let jmp = self.empty_jump();
                    let j3 = self.insts.len();
                    self.set_jump(jmp, j1);
                    self.set_split(split, j2, j3);
                    proof {
                        let code = compile_matchers(seq@, j2 as int);
                        assert(self.insts@ =~= old(self).insts@ + (seq![
                            Inst::Split((j1 + 1) as usize, (j1 + 2 + code.len()) as usize),
                        ] + code + seq![Inst::Jump(j1 as usize)]));
                    }
                } else {
                    let j1 = self.insts.len();
                    self.compile_all(seq);
                    let split = self.empty_split();
                    let j2 = self.insts.len();
                    self.set_split(split, j1, j2);
                    proof {
                        let code = compile_matchers(seq@, j1 as int);
                        assert(self.insts@ =~= old(self).insts@ + (code + seq![
                            Inst::Split(j1 as usize, (j1 + code.len() + 1) as usize),
                        ]));
                    }
                }
            },
            Matcher::MatchNonterminal(name, ty, pos) => {
                self.push(Inst::OneNonterminal(*name, *ty, *pos));
            },
        }
    }

    /// Appends the code of each matcher of a list, in order.
    fn compile_all(&mut self, ms: &Vec<Matcher>)
        ensures
            final(self).insts@ == old(self).insts@ + compile_matchers(ms@, old(self).insts@.len() as int),
            final(self).names@ == old(self).names@,
        decreases ms,
    {
        let ghost base = self.insts@.len() as int;
        let mut i: usize = 0;
        while i < ms.len()
            invariant
                i <= ms.len(),
                base == old(self).insts@.len(),
                self.insts@ == old(self).insts@ + compile_matchers(ms@.take(i as int), base),
                self.names@ == old(self).names@,
            decreases ms.len() - i,
        {
            let ghost before = self.insts@;
            self.compile(&ms[i]);
            proof {
                assert(ms@.take(i + 1).drop_last() =~= ms@.take(i as int));
                assert(ms@.take(i + 1).last() == ms@[i as int]);
                assert(self.insts@ =~= old(self).insts@ + compile_matchers(ms@.take(i + 1), base));
            }
            i += 1;
        }
        proof {
            assert(ms@.take(ms@.len() as int) =~= ms@);
        }
    }

    /// Appends the given instruction to the program.
    fn push(&mut self, x: Inst)
        ensures
            final(self).insts@ == old(self).insts@.push(x),
            final(self).names@ == old(self).names@,
    {
        self.insts.push(x)
    }

    /// Appends an *empty* `Split` instruction to the program and returns
    /// the index of that instruction, to be patched later.
    fn empty_split(&mut self) -> (i: usize)
        ensures
            final(self).insts@ == old(self).insts@.push(Inst::Split(0, 0)),
            final(self).names@ == old(self).names@,
            i == old(self).insts@.len(),
    {
        self.insts.push(Inst::Split(0, 0));
        self.insts.len() - 1
    }

    /// Sets the two targets of the `Split` instruction at index `i`.
    fn set_split(&mut self, i: usize, pc1: usize, pc2: usize)
        requires
            i < old(self).insts@.len(),
            old(self).insts@[i as int] is Split,
        ensures
            final(self).insts@ == old(self).insts@.update(i as int, Inst::Split(pc1, pc2)),
            final(self).names@ == old(self).names@,
    {
        self.insts.set(i, Inst::Split(pc1, pc2));
    }

    /// Appends an *empty* `Jump` instruction to the program and returns the
    /// index of that instruction, to be patched later.
    fn empty_jump(&mut self) -> (i: usize)
        ensures
            final(self).insts@ == old(self).insts@.push(Inst::Jump(0)),
            final(self).names@ == old(self).names@,
            i == old(self).insts@.len(),
    {
        self.insts.push(Inst::Jump(0));
        self.insts.len() - 1
    }

    /// Sets the target of the `Jump` instruction at index `i`.
    fn set_jump(&mut self, i: usize, pc: usize)
        requires
            i < old(self).insts@.len(),
            old(self).insts@[i as int] is Jump,
        ensures
            final(self).insts@ == old(self).insts@.update(i as int, Inst::Jump(pc)),
            final(self).names@ == old(self).names@,
    {
        self.insts.set(i, Inst::Jump(pc));
    }
}

impl Program {
    /// Compiles a matcher list: `Save(0)`, the code of each matcher in
    /// order, then `Save(1)` and `Match`.
    pub fn new(ast: Vec<Matcher>) -> (prog: Program)
        ensures
            prog.insts@ == program_of(ast@),
            program_wf(prog.insts@),
    {
        let mut c = Compiler { insts: Vec::new(), names: Vec::new() };
        c.insts.push(Inst::Save(0));
        c.compile_all(&ast);
        c.insts.push(Inst::Save(1));
        c.insts.push(Inst::Match);
        let Compiler { insts, names: _ } = c;
        let prog = Program { insts: insts };
        assert(prog.insts@ =~= program_of(ast@));
        assert(prog.insts@.len() == prog.insts.len());
        proof {
            lemma_program_wf(ast@);
        }
        prog
    }
}

impl Program {
    /// Whether the VM can run this program: it is not empty and no
    /// instruction leads outside it.
    pub fn is_wf(&self) -> (b: bool)
        ensures
            b == program_wf(self.insts@),
    {
        let n = self.insts.len();
        if n == 0 {
            return false;
        }
        let mut i: usize = 0;
        while i < n
            invariant
                n == self.insts@.len(),
                i <= n,
                forall|j: int| 0 <= j < i ==> #[trigger] inst_wf(self.insts@[j], j, n as int),
            decreases n - i,
        {
            let ok = match self.insts[i] {
                Inst::Match => true,
                Inst::OneTerminal(_) => i + 1 < n,
                Inst::OneNonterminal(_, _, _) => i + 1 < n,
                Inst::Save(_) => i + 1 < n,
                Inst::Jump(t) => t < n,
                Inst::Split(a, b) => a < n && b < n,
            };
            if !ok {
                assert(!inst_wf(self.insts@[i as int], i as int, n as int));
                return false;
            }
            i += 1;
        }
        true
    }
}

} // verus!
