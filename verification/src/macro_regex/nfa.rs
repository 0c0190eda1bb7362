//! The Pike VM that runs a compiled matcher over the macro input.
use vstd::prelude::*;
use crate::macro_regex::program::{Inst, Program, inst_wf, program_wf};
use crate::macro_regex::syntax::{FragmentParses, TokenStream, Token, parse_nt, parse_nt_spec, token_at};
use crate::macro_regex::threads::Threads;
use crate::macro_regex::vm::{Pass, Vm, added, lemma_added_step, pass_upto, thread_step, vm_loop, vm_pass, vm_run, vm_start};

verus! {

/// Instruction `i` passes control to instruction `j` without reading a
/// token: `Save` to the next instruction, `Jump` to its target, `Split` to
/// either target.
pub open spec fn eps_succ(insts: Seq<Inst>, i: usize, j: usize) -> bool {
    0 <= i < insts.len() && match insts[i as int] {
        Inst::Save(_) => j == i + 1,
        Inst::Jump(t) => j == t,
        Inst::Split(a, b) => j == a || j == b,
        _ => false,
    }
}

/// `p` is a chain of token-free steps that stays clear of `avoid`.
pub open spec fn eps_path(insts: Seq<Inst>, p: Seq<usize>, avoid: Seq<usize>) -> bool {
    &&& p.len() >= 1
    &&& forall|k: int| 0 <= k < p.len() - 1 ==> #[trigger] eps_succ(insts, p[k], p[k + 1])
    &&& forall|k: int| 0 <= k < p.len() ==> !avoid.contains(#[trigger] p[k])
}

/// Instruction `to` can be reached from `from` by token-free steps that
/// stay clear of `avoid`.
pub open spec fn reach_avoiding(insts: Seq<Inst>, from: usize, to: usize, avoid: Seq<usize>) -> bool {
    exists|p: Seq<usize>| #[trigger] eps_path(insts, p, avoid) && p[0] == from && p.last() == to
}

/// `a` is a prefix of `b`.
pub open spec fn is_prefix<T>(a: Seq<T>, b: Seq<T>) -> bool {
    a.len() <= b.len() && forall|i: int| 0 <= i < a.len() ==> a[i] == #[trigger] b[i]
}

/// `after` is the thread list `before` once the token-free closure of `pc`
/// has been added to it: the old threads stay in place, `pc` is present,
/// each new thread's token-free successors are present, and each new
/// thread is reachable from `pc` without passing through an old one.
pub open spec fn closure_added(insts: Seq<Inst>, before: Seq<usize>, after: Seq<usize>, pc: usize) -> bool {
    &&& is_prefix(before, after)
    &&& after.contains(pc)
    &&& forall|k: int, j: usize|
        before.len() <= k < after.len() && #[trigger] eps_succ(insts, after[k], j) ==> after.contains(j)
    &&& forall|k: int| before.len() <= k < after.len() ==> reach_avoiding(insts, pc, #[trigger] after[k], before)
}

/// The slots filled while the list grew from `from` to `to` threads hold
/// the cursor `parser`; the other slots keep theirs.
pub open spec fn parsers_filled(
    before: Seq<Option<usize>>,
    after: Seq<Option<usize>>,
    from: int,
    to: int,
    parser: usize,
) -> bool {
    &&& after.len() == before.len()
    &&& forall|i: int|
        0 <= i < after.len() ==> #[trigger] after[i] == if from <= i < to {
            Some(parser)
        } else {
            before[i]
        }
}

proof fn lemma_prefix_contains<T>(a: Seq<T>, b: Seq<T>, x: T)
    requires
        is_prefix(a, b),
        a.contains(x),
    ensures
        b.contains(x),
{
    let i = choose|i: int| 0 <= i < a.len() && a[i] == x;
    assert(b[i] == x);
}

proof fn lemma_prefix_trans<T>(a: Seq<T>, b: Seq<T>, c: Seq<T>)
    requires
        is_prefix(a, b),
        is_prefix(b, c),
    ensures
        is_prefix(a, c),
{
    assert forall|i: int| 0 <= i < a.len() implies a[i] == #[trigger] c[i] by {
        assert(b[i] == c[i]);
    }
}

/// A token-free step from `pc` to `mid` extends every path from `mid` that
/// avoids a list into a path from `pc` that avoids any prefix of that list
/// not holding `pc`.
proof fn lemma_reach_prepend(insts: Seq<Inst>, pc: usize, mid: usize, q: usize, small: Seq<usize>, big: Seq<usize>)
    requires
        eps_succ(insts, pc, mid),
        !small.contains(pc),
        is_prefix(small, big),
        reach_avoiding(insts, mid, q, big),
    ensures
        reach_avoiding(insts, pc, q, small),
{
    let p = choose|p: Seq<usize>| #[trigger] eps_path(insts, p, big) && p[0] == mid && p.last() == q;
    let p2 = seq![pc] + p;
    assert forall|k: int| 0 <= k < p2.len() - 1 implies #[trigger] eps_succ(insts, p2[k], p2[k + 1]) by {
        if k > 0 {
            let j = k - 1;
            assert(eps_succ(insts, p[j], p[j + 1]));
            assert(p2[k] == p[j]);
            assert(p2[k + 1] == p[j + 1]);
        } else {
            assert(p2[1] == mid);
        }
    }
    assert forall|k: int| 0 <= k < p2.len() implies !small.contains(#[trigger] p2[k]) by {
        if k > 0 {
            assert(p2[k] == p[k - 1]);
            if small.contains(p2[k]) {
                lemma_prefix_contains(small, big, p2[k]);
            }
        }
    }
    assert(eps_path(insts, p2, small));
}

/// The one-element path.
proof fn lemma_reach_self(insts: Seq<Inst>, pc: usize, avoid: Seq<usize>)
    requires
        !avoid.contains(pc),
    ensures
        reach_avoiding(insts, pc, pc, avoid),
{
    let p = seq![pc];
    assert(eps_path(insts, p, avoid));
}

/// A list that lost no thread and gained `pc` after adding a closure part
/// keeps the closure facts of the earlier part when it grows further.
proof fn lemma_closure_grows(
    insts: Seq<Inst>,
    s0: Seq<usize>,
    s1: Seq<usize>,
    s2: Seq<usize>,
    pc: usize,
    x: usize,
)
    requires
        s1 == s0.push(pc),
        !s0.contains(pc),
        eps_succ(insts, pc, x),
        closure_added(insts, s1, s2, x),
    ensures
        is_prefix(s0, s2),
        s2.contains(pc),
        forall|k: int, j: usize|
            s1.len() <= k < s2.len() && #[trigger] eps_succ(insts, s2[k], j) ==> s2.contains(j),
        forall|k: int| s0.len() <= k < s2.len() ==> reach_avoiding(insts, pc, #[trigger] s2[k], s0),
{
    assert(is_prefix(s0, s1));
    lemma_prefix_trans(s0, s1, s2);
    assert(s1[s0.len() as int] == pc);
    assert(s2[s0.len() as int] == pc);
    assert forall|k: int| s0.len() <= k < s2.len() implies reach_avoiding(insts, pc, #[trigger] s2[k], s0) by {
        if k == s0.len() {
            lemma_reach_self(insts, pc, s0);
        } else {
            assert(reach_avoiding(insts, x, s2[k], s1));
            lemma_reach_prepend(insts, pc, x, s2[k], s0, s1);
        }
    }
}

proof fn lemma_parsers_compose(
    p0: Seq<Option<usize>>,
    p1: Seq<Option<usize>>,
    p2: Seq<Option<usize>>,
    a: int,
    b: int,
    c: int,
    parser: usize,
)
    requires
        a <= b <= c,
        parsers_filled(p0, p1, a, b, parser),
        parsers_filled(p1, p2, b, c, parser),
    ensures
        parsers_filled(p0, p2, a, c, parser),
{
    assert forall|i: int| 0 <= i < p2.len() implies #[trigger] p2[i] == if a <= i < c {
        Some(parser)
    } else {
        p0[i]
    } by {
        assert(p1[i] == if a <= i < b { Some(parser) } else { p0[i] });
    }
}

/// No instruction of the program reads a fragment.
pub open spec fn no_nonterminals(insts: Seq<Inst>) -> bool {
    forall|i: int| 0 <= i < insts.len() ==> !(#[trigger] insts[i] is OneNonterminal)
}

/// `q` is in the token-free closure of `x`.
pub open spec fn eclose(insts: Seq<Inst>, x: usize, q: usize) -> bool {
    reach_avoiding(insts, x, q, Seq::empty())
}

/// The threads started at the first instruction.
pub open spec fn start_set(insts: Seq<Inst>) -> Set<usize> {
    Set::new(|q: usize| eclose(insts, 0, q))
}

/// The threads that the threads `s` continue as after reading `tok`: the
/// closure of the instruction after each `OneTerminal(tok)` in `s`.
pub open spec fn step_set(insts: Seq<Inst>, s: Set<usize>, tok: Token) -> Set<usize> {
    Set::new(
        |q: usize|
            exists|pc: usize|
                #![trigger s.contains(pc), eclose(insts, (pc + 1) as usize, q)]
                s.contains(pc) && pc < insts.len() && insts[pc as int] == Inst::OneTerminal(tok) && eclose(
                    insts,
                    (pc + 1) as usize,
                    q,
                ),
    )
}

/// The threads alive when the `k`-th token from position `p0` is read:
/// those carried over from the previous token, and a fresh start.
pub open spec fn live(insts: Seq<Inst>, tokens: Seq<Token>, p0: int, k: nat) -> Set<usize>
    decreases k,
{
    if k == 0 {
        start_set(insts)
    } else {
        step_set(insts, live(insts, tokens, p0, (k - 1) as nat), token_at(tokens, p0 + k - 1)).union(
            start_set(insts),
        )
    }
}

/// A thread of `s` stands at `Match`.
pub open spec fn has_match(insts: Seq<Inst>, s: Set<usize>) -> bool {
    exists|pc: usize| #[trigger] s.contains(pc) && pc < insts.len() && insts[pc as int] == Inst::Match
}

/// Some match ends within the first `end + 1` steps of a search started
/// at position `p0` that may begin at any of those steps.
pub open spec fn matches_within(insts: Seq<Inst>, tokens: Seq<Token>, p0: int, end: nat) -> bool {
    exists|k: nat| k <= end && #[trigger] has_match(insts, live(insts, tokens, p0, k))
}

/// Letting the search run for more steps never loses a match.
pub proof fn lemma_more_steps_keep_a_match(insts: Seq<Inst>, tokens: Seq<Token>, p0: int, e1: nat, e2: nat)
    requires
        e1 <= e2,
        matches_within(insts, tokens, p0, e1),
    ensures
        matches_within(insts, tokens, p0, e2),
{
    let k = choose|k: nat| k <= e1 && #[trigger] has_match(insts, live(insts, tokens, p0, k));
    assert(has_match(insts, live(insts, tokens, p0, k)));
}

/// The threads carried over to the `k`-th step, before the fresh start.
pub open spec fn pending(insts: Seq<Inst>, tokens: Seq<Token>, p0: int, k: nat) -> Set<usize> {
    if k == 0 {
        Set::empty()
    } else {
        step_set(insts, live(insts, tokens, p0, (k - 1) as nat), token_at(tokens, p0 + k - 1))
    }
}

/// Where the VM's cursor stands after `k` steps from `p0`.
pub open spec fn pos_after(p0: int, k: int, len: int) -> int {
    if p0 + k <= len {
        p0 + k
    } else if p0 <= len {
        len
    } else {
        p0
    }
}

/// Every token-free successor of a thread of `s` is in `s`.
pub open spec fn closed(insts: Seq<Inst>, s: Seq<usize>) -> bool {
    forall|k: int, j: usize| 0 <= k < s.len() && #[trigger] eps_succ(insts, s[k], j) ==> s.contains(j)
}

/// No slot of a thread list holds a token cursor.
pub open spec fn no_cursors(parsers: Seq<Option<usize>>) -> bool {
    forall|i: int| 0 <= i < parsers.len() ==> #[trigger] parsers[i] == None::<usize>
}

/// The threads of `c[0..i]` at `OneTerminal(tok)`, continued past it.
pub open spec fn partial_step(insts: Seq<Inst>, c: Seq<usize>, i: int, tok: Token, q: usize) -> bool {
    exists|t: int|
        #![trigger c[t], eclose(insts, (c[t] + 1) as usize, q)]
        0 <= t < i && c[t] < insts.len() && insts[c[t] as int] == Inst::OneTerminal(tok) && eclose(
            insts,
            (c[t] + 1) as usize,
            q,
        )
}

proof fn lemma_closed_path(insts: Seq<Inst>, b: Seq<usize>, p: Seq<usize>, avoid: Seq<usize>)
    requires
        closed(insts, b),
        eps_path(insts, p, avoid),
        b.contains(p[0]),
    ensures
        b.contains(p.last()),
    decreases p.len(),
{
    if p.len() > 1 {
        let p1 = p.drop_last();
        assert(eps_path(insts, p1, avoid)) by {
            assert forall|k: int| 0 <= k < p1.len() - 1 implies #[trigger] eps_succ(insts, p1[k], p1[k + 1]) by {
                assert(eps_succ(insts, p[k], p[k + 1]));
            }
            assert forall|k: int| 0 <= k < p1.len() implies !avoid.contains(#[trigger] p1[k]) by {
                assert(!avoid.contains(p[k]));
            }
        }
        lemma_closed_path(insts, b, p1, avoid);
        let m = p.len() - 2;
        assert(eps_succ(insts, p[m], p[m + 1]));
        let k = b.index_of(p[m]);
        assert(eps_succ(insts, b[k], p[m + 1]));
    }
}

/// Adding the closure of `x` to a closed list gives a closed list holding
/// exactly the old threads and the closure of `x`.
proof fn lemma_closure_set(insts: Seq<Inst>, a: Seq<usize>, b: Seq<usize>, x: usize)
    requires
        closed(insts, a),
        closure_added(insts, a, b, x),
    ensures
        closed(insts, b),
        forall|q: usize| b.contains(q) <==> (a.contains(q) || eclose(insts, x, q)),
{
    assert forall|k: int, j: usize| 0 <= k < b.len() && #[trigger] eps_succ(insts, b[k], j) implies b.contains(j) by {
        if k < a.len() {
            assert(a[k] == b[k]);
            lemma_prefix_contains(a, b, j);
        }
    }
    assert forall|q: usize| b.contains(q) implies (a.contains(q) || eclose(insts, x, q)) by {
        let k = b.index_of(q);
        if k < a.len() {
            assert(a[k] == q);
        } else {
            assert(reach_avoiding(insts, x, b[k], a));
            let p = choose|p: Seq<usize>| #[trigger] eps_path(insts, p, a) && p[0] == x && p.last() == q;
            assert(eps_path(insts, p, Seq::empty()));
        }
    }
    assert forall|q: usize| (a.contains(q) || eclose(insts, x, q)) implies b.contains(q) by {
        if a.contains(q) {
            lemma_prefix_contains(a, b, q);
        } else {
            let p = choose|p: Seq<usize>| #[trigger] eps_path(insts, p, Seq::empty()) && p[0] == x && p.last() == q;
            lemma_closed_path(insts, b, p, Seq::empty());
        }
    }
}

/// The VM over one program, one input cursor and the fragment parses of
/// that input.
pub struct Nfa<'r> {
    pub prog: &'r Program,
    pub start: usize,
    pub end: usize,
    pub ic: usize,
    pub parser: TokenStream,
    pub frags: &'r FragmentParses,
}

impl<'r> Nfa<'r> {
    /// Adds the thread at `pc`, and every thread it reaches without reading
    /// a token, to `nlist`, stopping at threads already present.
    pub fn add(&self, nlist: &mut Threads, pc: usize)
        requires
            program_wf(self.prog.insts@),
            old(nlist).wf(),
            old(nlist).capacity() == self.prog.insts@.len(),
            pc < old(nlist).capacity(),
        ensures
            final(nlist).wf(),
            final(nlist).capacity() == old(nlist).capacity(),
            final(nlist).parsers() == old(nlist).parsers(),
            closure_added(self.prog.insts@, old(nlist).pcs(), final(nlist).pcs(), pc),
            final(nlist).pcs() == added(self.prog.insts@, old(nlist).pcs(), pc),
        decreases old(nlist).capacity() - old(nlist).pcs().len(),
    {
        let ghost s0 = nlist.pcs();
        let ghost insts = self.prog.insts@;
        let n = self.prog.insts.len();
        if nlist.contains(pc) {
            assert(is_prefix(s0, nlist.pcs()));
            return;
        }
        proof {
            nlist.lemma_wf();
            assert(inst_wf(insts[pc as int], pc as int, insts.len() as int));
            lemma_added_step(insts, s0, pc);
        }
        match self.prog.insts[pc] {
            Inst::Save(_slot) => {
                nlist.add(pc, true);
                let ghost s1 = nlist.pcs();
                self.add(nlist, pc + 1);
                proof {
                    lemma_closure_grows(insts, s0, s1, nlist.pcs(), pc, (pc + 1) as usize);
                }
            },
            Inst::Jump(to) => {
                nlist.add(pc, true);
                let ghost s1 = nlist.pcs();
                self.add(nlist, to);
                proof {
                    lemma_closure_grows(insts, s0, s1, nlist.pcs(), pc, to);
                }
            },
            Inst::Split(x, y) => {
                nlist.add(pc, true);
                let ghost s1 = nlist.pcs();
                self.add(nlist, x);
                let ghost s2 = nlist.pcs();
                proof {
                    nlist.lemma_wf();
                    assert(s2.len() > s0.len());
                }
                self.add(nlist, y);
                let ghost s3 = nlist.pcs();
                proof {
                    lemma_closure_grows(insts, s0, s1, s2, pc, x);
                    lemma_prefix_trans(s0, s2, s3);
                    lemma_prefix_contains(s2, s3, pc);
                    lemma_prefix_contains(s2, s3, x);
                    assert(s1[s0.len() as int] == pc);
                    assert(s1.contains(pc));
                    assert forall|k: int, j: usize|
                        s0.len() <= k < s3.len() && #[trigger] eps_succ(insts, s3[k], j) implies s3.contains(j) by {
                        if k == s0.len() {
                            assert(s3[k] == pc) by {
                                assert(s2[k] == pc);
                            }
                        } else if k < s2.len() {
                            assert(s3[k] == s2[k]);
                            lemma_prefix_contains(s2, s3, j);
                        }
                    }
                    assert forall|k: int| s0.len() <= k < s3.len() implies reach_avoiding(insts, pc, #[trigger] s3[k], s0) by {
                        if k < s2.len() {
                            assert(s3[k] == s2[k]);
                        } else {
                            lemma_prefix_trans(s0, s1, s2);
                            assert(!s0.contains(pc));
                            lemma_reach_prepend(insts, pc, y, s3[k], s0, s2);
                        }
                    }
                }
            },
            _ => {
                nlist.add(pc, false);
                proof {
                    let s1 = nlist.pcs();
                    assert(s1[s0.len() as int] == pc);
                    lemma_reach_self(insts, pc, s0);
                }
            },
        }
    }

    /// Adds the thread at `pc`, and every thread it reaches without reading
    /// a token, to `nlist`, stopping at threads already present; every new
    /// thread gets its own token cursor at `parser`. The threads added are
    /// those `add` adds, in the same order (`added`); the threads already
    /// present and the cursors of the other slots stay as they were.
    pub fn add_with_parser(&self, nlist: &mut Threads, pc: usize, parser: usize)
        requires
            program_wf(self.prog.insts@),
            old(nlist).wf(),
            old(nlist).capacity() == self.prog.insts@.len(),
            pc < old(nlist).capacity(),
        ensures
            final(nlist).wf(),
            final(nlist).capacity() == old(nlist).capacity(),
            parsers_filled(
                old(nlist).parsers(),
                final(nlist).parsers(),
                old(nlist).pcs().len() as int,
                final(nlist).pcs().len() as int,
                parser,
            ),
            closure_added(self.prog.insts@, old(nlist).pcs(), final(nlist).pcs(), pc),
            final(nlist).pcs() == added(self.prog.insts@, old(nlist).pcs(), pc),
        decreases old(nlist).capacity() - old(nlist).pcs().len(),
    {
        let ghost s0 = nlist.pcs();
        let ghost p0 = nlist.parsers();
        let ghost insts = self.prog.insts@;
        let n = self.prog.insts.len();
        if nlist.contains(pc) {
            assert(is_prefix(s0, nlist.pcs()));
            return;
        }
        proof {
            nlist.lemma_wf();
            assert(inst_wf(insts[pc as int], pc as int, insts.len() as int));
            lemma_added_step(insts, s0, pc);
        }
        match self.prog.insts[pc] {
            Inst::Save(_slot) => {
                nlist.add_with_parser(pc, parser);
                let ghost s1 = nlist.pcs();
                let ghost p1 = nlist.parsers();
                self.add_with_parser(nlist, pc + 1, parser);
                proof {
                    lemma_parsers_compose(p0, p1, nlist.parsers(), s0.len() as int, s1.len() as int, nlist.pcs().len() as int, parser);
                    lemma_closure_grows(insts, s0, s1, nlist.pcs(), pc, (pc + 1) as usize);
                }
            },
            Inst::Jump(to) => {
                nlist.add_with_parser(pc, parser);
                let ghost s1 = nlist.pcs();
                let ghost p1 = nlist.parsers();
                self.add_with_parser(nlist, to, parser);
                proof {
                    lemma_parsers_compose(p0, p1, nlist.parsers(), s0.len() as int, s1.len() as int, nlist.pcs().len() as int, parser);
                    lemma_closure_grows(insts, s0, s1, nlist.pcs(), pc, to);
                }
            },
            Inst::Split(x, y) => {
                nlist.add_with_parser(pc, parser);
                let ghost s1 = nlist.pcs();
                let ghost p1 = nlist.parsers();
                self.add_with_parser(nlist, x, parser);
                let ghost s2 = nlist.pcs();
                let ghost p2 = nlist.parsers();
                proof {
                    nlist.lemma_wf();
                    assert(s2.len() > s0.len());
                }
                self.add_with_parser(nlist, y, parser);
                let ghost s3 = nlist.pcs();
                proof {
                    lemma_parsers_compose(p0, p1, p2, s0.len() as int, s1.len() as int, s2.len() as int, parser);
                    lemma_parsers_compose(p0, p2, nlist.parsers(), s0.len() as int, s2.len() as int, s3.len() as int, parser);
                    lemma_closure_grows(insts, s0, s1, s2, pc, x);
                    lemma_prefix_trans(s0, s2, s3);
                    lemma_prefix_contains(s2, s3, pc);
                    lemma_prefix_contains(s2, s3, x);
                    assert(s1[s0.len() as int] == pc);
                    assert(s1.contains(pc));
                    assert forall|k: int, j: usize|
                        s0.len() <= k < s3.len() && #[trigger] eps_succ(insts, s3[k], j) implies s3.contains(j) by {
                        if k == s0.len() {
                            assert(s3[k] == pc) by {
                                assert(s2[k] == pc);
                            }
                        } else if k < s2.len() {
                            assert(s3[k] == s2[k]);
                            lemma_prefix_contains(s2, s3, j);
                        }
                    }
                    assert forall|k: int| s0.len() <= k < s3.len() implies reach_avoiding(insts, pc, #[trigger] s3[k], s0) by {
                        if k < s2.len() {
                            assert(s3[k] == s2[k]);
                        } else {
                            lemma_prefix_trans(s0, s1, s2);
                            assert(!s0.contains(pc));
                            lemma_reach_prepend(insts, pc, y, s3[k], s0, s2);
                        }
                    }
                }
            },
            _ => {
                nlist.add_with_parser(pc, parser);
                proof {
                    let s1 = nlist.pcs();
                    assert(parsers_filled(p0, nlist.parsers(), s0.len() as int, s1.len() as int, parser));
                    assert(s1[s0.len() as int] == pc);
                    lemma_reach_self(insts, pc, s0);
                }
            },
        }
    }

    /// Runs one thread, standing at `pc` with its slot's token cursor
    /// `parser`, against the current token; the threads it continues as
    /// go to `nlist`. Returns whether the thread matched.
    ///
    /// A thread reads the token under its own cursor when it has one and
    /// under the VM's cursor otherwise. A nonterminal that parses moves that
    /// cursor past the fragment, and the threads it continues as get their
    /// own cursors there.
    fn step(&mut self, nlist: &mut Threads, pc: usize, parser: &mut Option<usize>) -> (matched: bool)
        requires
            program_wf(old(self).prog.insts@),
            old(nlist).wf(),
            old(nlist).capacity() == old(self).prog.insts@.len(),
            pc < old(self).prog.insts@.len(),
        ensures
            final(self).prog == old(self).prog,
            final(self).frags == old(self).frags,
            final(self).start == old(self).start,
            final(self).end == old(self).end,
            final(self).ic == old(self).ic,
            final(self).parser.tokens@ == old(self).parser.tokens@,
            final(nlist).wf(),
            final(nlist).capacity() == old(nlist).capacity(),
            ({
                let insts = old(self).prog.insts@;
                let tokens = old(self).parser.tokens@;
                let cur = match *old(parser) {
                    Some(p) => p as int,
                    None => old(self).parser.pos as int,
                };
                let unchanged = {
                    &&& final(nlist).pcs() == old(nlist).pcs()
                    &&& final(nlist).parsers() == old(nlist).parsers()
                    &&& *final(parser) == *old(parser)
                    &&& final(self).parser.pos == old(self).parser.pos
                };
                match insts[pc as int] {
                    Inst::Match => matched && unchanged,
                    Inst::OneTerminal(tok) => {
                        &&& !matched
                        &&& final(nlist).parsers() == old(nlist).parsers()
                        &&& *final(parser) == *old(parser)
                        &&& final(self).parser.pos == old(self).parser.pos
                        &&& if token_at(tokens, cur) == tok {
                            &&& closure_added(insts, old(nlist).pcs(), final(nlist).pcs(), (pc + 1) as usize)
                            &&& final(nlist).pcs() == added(insts, old(nlist).pcs(), (pc + 1) as usize)
                        } else {
                            final(nlist).pcs() == old(nlist).pcs()
                        }
                    },
                    Inst::OneNonterminal(_, kind, _) => {
                        &&& !matched
                        &&& match parse_nt_spec(tokens, *old(self).frags, cur, kind) {
                            Some(q) => {
                                &&& closure_added(insts, old(nlist).pcs(), final(nlist).pcs(), (pc + 1) as usize)
                                &&& final(nlist).pcs() == added(insts, old(nlist).pcs(), (pc + 1) as usize)
                                &&& parsers_filled(
                                    old(nlist).parsers(),
                                    final(nlist).parsers(),
                                    old(nlist).pcs().len() as int,
                                    final(nlist).pcs().len() as int,
                                    q,
                                )
                                &&& if (*old(parser)) is Some {
                                    *final(parser) == Some(q) && final(self).parser.pos == old(self).parser.pos
                                } else {
                                    *final(parser) == None::<usize> && final(self).parser.pos == q
                                }
                            },
                            None => unchanged,
                        }
                    },
                    _ => !matched && unchanged,
                }
            }),
    {
        let n = self.prog.insts.len();
        proof {
            assert(inst_wf(self.prog.insts@[pc as int], pc as int, n as int));
        }
        match self.prog.insts[pc] {
            Inst::Match => {
                return true;
            },
            Inst::OneTerminal(tok) => {
                let is_match = {
                    let cur = match *parser {
                        Some(p) => p,
                        None => self.parser.pos,
                    };
                    self.parser.token_at(cur) == tok
                };
                if is_match {
                    self.add(nlist, pc + 1);
                }
            },
            Inst::OneNonterminal(_, ty, _) => {
                let cur = match *parser {
                    Some(p) => p,
                    None => self.parser.pos,
                };
                match parse_nt(&self.parser, cur, ty, self.frags) {
                    Some(q) => {
                        self.add_with_parser(nlist, pc + 1, q);
                        match parser {
                            Some(_) => {
                                *parser = Some(q);
                            },
                            None => {
                                self.parser.pos = q;
                            },
                        }
                    },
                    None => {},
                }
            },
            _ => {},
        }
        false
    }


    /// Runs the VM from the current token. Each step starts a fresh thread
    /// at the first instruction until a match is found, runs every live
    /// thread against the current token and moves the cursor on; the run
    /// ends after `end + 1` steps, or earlier once a match was found and no
    /// thread is left. Returns whether any thread matched.
    fn run(&mut self) -> (matched: bool)
        requires
            program_wf(old(self).prog.insts@),
            old(self).ic == 0,
            old(self).end < usize::MAX - 1,
        ensures
            final(self).parser.tokens@ == old(self).parser.tokens@,
            matched == vm_run(old(self).prog.insts@, old(self).parser.tokens@, *old(self).frags, old(self).parser.pos as int, old(self).end as nat).matched,
            final(self).parser.pos as int == vm_run(old(self).prog.insts@, old(self).parser.tokens@, *old(self).frags, old(self).parser.pos as int, old(self).end as nat).pos,
            no_nonterminals(old(self).prog.insts@) ==> matched == matches_within(
                old(self).prog.insts@,
                old(self).parser.tokens@,
                old(self).parser.pos as int,
                old(self).end as nat,
            ),
    {
        let ghost insts = self.prog.insts@;
        let ghost tokens = self.parser.tokens@;
        let ghost p0 = self.parser.pos as int;
        let ghost len = tokens.len() as int;
        let ghost nf = no_nonterminals(insts);
        let ghost prog = self.prog;
        let ghost frags = self.frags;
        let ghost end0 = self.end;
        let ghost start0 = self.start;
        let mut matched = false;
        let ninsts = self.prog.insts.len();
        let mut clist = Threads::new(ninsts, 0);
        let mut nlist = Threads::new(ninsts, 0);
        let mut next_ic: usize = 1;
        let ghost fr = *self.frags;
        let ghost result = vm_run(insts, tokens, fr, p0, end0 as nat);
        proof {
            assert(clist.pcs() =~= Seq::<usize>::empty());
            assert(clist.parsers() =~= vm_start(insts, p0).cparsers);
            assert(nlist.parsers() =~= vm_start(insts, p0).nparsers);
        }
        while self.ic <= self.end
            invariant
                fr == *self.frags,
                result == vm_run(insts, tokens, fr, p0, end0 as nat),
                vm_loop(
                    insts,
                    tokens,
                    fr,
                    Vm {
                        clist: clist.pcs(),
                        cparsers: clist.parsers(),
                        nparsers: nlist.parsers(),
                        pos: self.parser.pos as int,
                        matched,
                    },
                    self.ic as nat,
                    end0 as nat,
                ) == result,
                self.prog == prog,
                self.frags == frags,
                self.end == end0,
                self.start == start0,
                insts == self.prog.insts@,
                ninsts == insts.len(),
                self.parser.tokens@ == tokens,
                len == tokens.len(),
                nf == no_nonterminals(insts),
                program_wf(insts),
                self.end < usize::MAX - 1,
                clist.wf(),
                nlist.wf(),
                clist.capacity() == insts.len(),
                nlist.capacity() == insts.len(),
                nlist.pcs() == Seq::<usize>::empty(),
                self.ic <= self.end + 1,
                next_ic == self.ic + 1,
                nf ==> no_cursors(clist.parsers()) && no_cursors(nlist.parsers()),
                nf ==> self.parser.pos == pos_after(p0, self.ic as int, len),
                nf && !matched ==> closed(insts, clist.pcs()),
                nf && !matched ==> forall|q: usize|
                    clist.pcs().contains(q) <==> #[trigger] pending(insts, tokens, p0, self.ic as nat).contains(q),
                nf && !matched ==> forall|j: nat| j < self.ic ==> !#[trigger] has_match(insts, live(insts, tokens, p0, j)),
                nf && matched ==> exists|j: nat| j < self.ic && #[trigger] has_match(insts, live(insts, tokens, p0, j)),
            ensures
                self.parser.tokens@ == tokens,
                matched == result.matched,
                self.parser.pos as int == result.pos,
                nf && !matched ==> forall|j: nat| j <= self.end ==> !#[trigger] has_match(insts, live(insts, tokens, p0, j)),
                nf && matched ==> exists|j: nat| j <= self.end && #[trigger] has_match(insts, live(insts, tokens, p0, j)),
            decreases self.end + 1 - self.ic,
        {
            if clist.size() == 0 {
                if matched {
                    break;
                }
            }
            let ghost k = self.ic as nat;
            let ghost vm0 = Vm {
                clist: clist.pcs(),
                cparsers: clist.parsers(),
                nparsers: nlist.parsers(),
                pos: self.parser.pos as int,
                matched,
            };
            if clist.size() == 0 || !matched {
                let ghost before = clist.pcs();
                self.add(&mut clist, 0);
                proof {
                    if nf && !matched {
                        lemma_closure_set(insts, before, clist.pcs(), 0);
                        assert forall|q: usize| clist.pcs().contains(q) <==> #[trigger] live(insts, tokens, p0, k).contains(q) by {
                            assert(before.contains(q) <==> pending(insts, tokens, p0, k).contains(q));
                            if k == 0 {
                                assert(!pending(insts, tokens, p0, k).contains(q));
                            }
                            assert(eclose(insts, 0, q) <==> start_set(insts).contains(q));
                        }
                    }
                }
            }
            self.ic = next_ic;
            next_ic = self.ic + 1;
            let ghost c0 = clist.pcs();
            let ghost matched0 = matched;
            let ghost pos0 = self.parser.pos as int;
            let ghost tok = token_at(tokens, pos0);
            let csize = clist.size();
            let mut i: usize = 0;
            let ghost start = Pass {
                npcs: nlist.pcs(),
                nparsers: nlist.parsers(),
                cparsers: clist.parsers(),
                pos: self.parser.pos as int,
                matched,
            };
            proof {
                clist.lemma_wf();
                assert(nlist.pcs() =~= Seq::<usize>::empty());
                assert(closed(insts, nlist.pcs()));
            }
            while i < csize
                invariant
                    fr == *self.frags,
                    pass_upto(insts, tokens, fr, c0, start, i as nat) == (Pass {
                        npcs: nlist.pcs(),
                        nparsers: nlist.parsers(),
                        cparsers: clist.parsers(),
                        pos: self.parser.pos as int,
                        matched,
                    }),
                    self.prog == prog,
                    self.frags == frags,
                    self.end == end0,
                    self.start == start0,
                    k <= end0,
                    insts == self.prog.insts@,
                    self.parser.tokens@ == tokens,
                    program_wf(insts),
                    self.ic == k + 1,
                    next_ic == self.ic + 1,
                    c0.len() <= insts.len(),
                    self.end < usize::MAX - 1,
                    clist.wf(),
                    nlist.wf(),
                    clist.capacity() == insts.len(),
                    nlist.capacity() == insts.len(),
                    clist.pcs() == c0,
                    csize == c0.len(),
                    i <= csize,
                    forall|t: int| 0 <= t < c0.len() ==> c0[t] < insts.len(),
                    nf == no_nonterminals(insts),
                    nf ==> no_cursors(clist.parsers()) && no_cursors(nlist.parsers()),
                    nf ==> self.parser.pos == pos0,
                    tok == token_at(tokens, pos0),
                    nf ==> closed(insts, nlist.pcs()),
                    nf ==> forall|q: usize|
                        nlist.pcs().contains(q) <==> #[trigger] partial_step(insts, c0, i as int, tok, q),
                    nf ==> (matched <==> (matched0 || exists|t: int|
                        0 <= t < i && #[trigger] insts[c0[t] as int] == Inst::Match)),
                decreases csize - i,
            {
                let (pc, popt) = clist.pc(i);
                proof {
                    clist.lemma_wf();
                    nlist.lemma_wf();
                    if nf {
                        assert(popt == None::<usize>);
                    }
                }
                let mut p = popt;
                let ghost nbefore = nlist.pcs();
                let ghost spos = self.parser.pos;
                let ghost prev = Pass {
                    npcs: nlist.pcs(),
                    nparsers: nlist.parsers(),
                    cparsers: clist.parsers(),
                    pos: self.parser.pos as int,
                    matched,
                };
                let stepped = self.step(&mut nlist, pc, &mut p);
                if stepped {
                    matched = true;
                }
                clist.set_parser(i, p);
                proof {
                    let r = thread_step(insts, tokens, fr, prev, pc, i as int);
                    assert(pc == c0[i as int]);
                    assert(popt == prev.cparsers[i as int]);
                    match insts[pc as int] {
                        Inst::OneNonterminal(_, kind, _) => {
                            let cur = match popt {
                                Some(pp) => pp as int,
                                None => prev.pos,
                            };
                            match parse_nt_spec(tokens, fr, cur, kind) {
                                Some(q) => {
                                    assert(nlist.parsers() =~= r.nparsers);
                                    assert(clist.parsers() =~= r.cparsers);
                                },
                                None => {
                                    assert(clist.parsers() =~= r.cparsers);
                                },
                            }
                        },
                        _ => {
                            assert(clist.parsers() =~= r.cparsers);
                        },
                    }
                    assert(r == (Pass {
                        npcs: nlist.pcs(),
                        nparsers: nlist.parsers(),
                        cparsers: clist.parsers(),
                        pos: self.parser.pos as int,
                        matched,
                    }));
                }
                proof {
                    if nf {
                        assert(!(insts[pc as int] is OneNonterminal));
                        let after = nlist.pcs();
                        assert(spos == pos0);
                        assert(pc < insts.len());
                        assert(inst_wf(insts[pc as int], pc as int, insts.len() as int));
                        if insts[pc as int] == Inst::OneTerminal(tok) {
                            assert(token_at(tokens, spos as int) == tok);
                            assert(closure_added(insts, nbefore, after, (pc + 1) as usize));
                            lemma_closure_set(insts, nbefore, after, (pc + 1) as usize);
                        }
                        assert forall|q: usize|
                            after.contains(q) <==> #[trigger] partial_step(insts, c0, i + 1, tok, q) by {
                            assert(nbefore.contains(q) <==> partial_step(insts, c0, i as int, tok, q));
                            assert(c0[i as int] == pc);
                            if insts[pc as int] == Inst::OneTerminal(tok) {
                                assert(after.contains(q) <==> (nbefore.contains(q) || eclose(insts, (pc + 1) as usize, q)));
                            } else {
                                assert(after == nbefore);
                            }
                            if partial_step(insts, c0, i + 1, tok, q) {
                                let t = choose|t: int|
                                    #![trigger c0[t], eclose(insts, (c0[t] + 1) as usize, q)]
                                    0 <= t < i + 1 && c0[t] < insts.len() && insts[c0[t] as int] == Inst::OneTerminal(tok)
                                        && eclose(insts, (c0[t] + 1) as usize, q);
                                if t < i {
                                    assert(partial_step(insts, c0, i as int, tok, q));
                                }
                            }
                            if partial_step(insts, c0, i as int, tok, q) {
                                let t = choose|t: int|
                                    #![trigger c0[t], eclose(insts, (c0[t] + 1) as usize, q)]
                                    0 <= t < i && c0[t] < insts.len() && insts[c0[t] as int] == Inst::OneTerminal(tok)
                                        && eclose(insts, (c0[t] + 1) as usize, q);
                                assert(partial_step(insts, c0, i + 1, tok, q));
                            }
                            if insts[pc as int] == Inst::OneTerminal(tok) && eclose(insts, (pc + 1) as usize, q) {
                                assert(eclose(insts, (c0[i as int] + 1) as usize, q));
                                assert(partial_step(insts, c0, i + 1, tok, q));
                            }
                        }
                        assert(matched <==> (matched0 || exists|t: int|
                            0 <= t < i + 1 && #[trigger] insts[c0[t] as int] == Inst::Match)) by {
                            if matched && !matched0 && !(exists|t: int|
                                0 <= t < i && #[trigger] insts[c0[t] as int] == Inst::Match) {
                                assert(insts[c0[i as int] as int] == Inst::Match);
                            }
                        }
                        assert(no_cursors(clist.parsers()));
                    }
                }
                i += 1;
            }
            proof {
                if nf && !matched0 {
                    let lk = live(insts, tokens, p0, k);
                    assert(pos0 == pos_after(p0, k as int, len));
                    assert(tok == token_at(tokens, p0 + k));
                    assert forall|q: usize| nlist.pcs().contains(q) <==> #[trigger] pending(insts, tokens, p0, (k + 1) as nat).contains(q) by {
                        if partial_step(insts, c0, csize as int, tok, q) {
                            let t = choose|t: int|
                                #![trigger c0[t], eclose(insts, (c0[t] + 1) as usize, q)]
                                0 <= t < csize && c0[t] < insts.len() && insts[c0[t] as int] == Inst::OneTerminal(tok)
                                    && eclose(insts, (c0[t] + 1) as usize, q);
                            assert(c0.contains(c0[t]));
                            assert(lk.contains(c0[t]));
                        }
                        if pending(insts, tokens, p0, (k + 1) as nat).contains(q) {
                            let pc = choose|pc: usize|
                                #![trigger lk.contains(pc), eclose(insts, (pc + 1) as usize, q)]
                                lk.contains(pc) && pc < insts.len() && insts[pc as int] == Inst::OneTerminal(tok)
                                    && eclose(insts, (pc + 1) as usize, q);
                            assert(c0.contains(pc));
                            let t = c0.index_of(pc);
                            assert(partial_step(insts, c0, csize as int, tok, q));
                        }
                    }
                    if matched {
                        let t = choose|t: int| 0 <= t < csize && #[trigger] insts[c0[t] as int] == Inst::Match;
                        assert(lk.contains(c0[t]));
                        assert(has_match(insts, lk));
                    } else {
                        assert forall|j: nat| j < self.ic implies !#[trigger] has_match(insts, live(insts, tokens, p0, j)) by {
                            if j == k {
                                if has_match(insts, lk) {
                                    let pc = choose|pc: usize| #[trigger] lk.contains(pc) && pc < insts.len() && insts[pc as int] == Inst::Match;
                                    assert(c0.contains(pc));
                                    let t = c0.index_of(pc);
                                    assert(insts[c0[t] as int] == Inst::Match);
                                }
                            }
                        }
                    }
                }
            }
            let ghost after_pass = Pass {
                npcs: nlist.pcs(),
                nparsers: nlist.parsers(),
                cparsers: clist.parsers(),
                pos: self.parser.pos as int,
                matched,
            };
            self.parser.bump();
            std::mem::swap(&mut clist, &mut nlist);
            nlist.empty();
            proof {
                assert(start.npcs =~= Seq::<usize>::empty());
                assert(after_pass == pass_upto(insts, tokens, fr, c0, start, c0.len()));
                assert(vm_pass(insts, tokens, fr, vm0) == (Vm {
                    clist: clist.pcs(),
                    cparsers: clist.parsers(),
                    nparsers: nlist.parsers(),
                    pos: self.parser.pos as int,
                    matched,
                }));
            }
            proof {
                if nf {
                    assert(self.parser.pos == pos_after(p0, self.ic as int, len));
                }
            }
        }
        matched
    }

}

/// Runs `prog` over `input` from its current token: the search may start
/// at any of the first `end + 1` tokens and succeeds when a thread reaches
/// `Match` within those steps. `frags` holds what the fragment parsers make
/// of the input, for the nonterminals of `prog`. `start` is not read.
///
/// The result and where the cursor is left are those of the VM's passes,
/// `vm_run`. For a program without nonterminals the result is exactly
/// whether a match is found within the steps: `matches_within`.
pub fn run(prog: &Program, input: &mut TokenStream, frags: &FragmentParses, start: usize, end: usize) -> (matched: bool)
    requires
        program_wf(prog.insts@),
        end < usize::MAX - 1,
    ensures
        final(input).tokens@ == old(input).tokens@,
        matched == vm_run(prog.insts@, old(input).tokens@, *frags, old(input).pos as int, end as nat).matched,
        final(input).pos as int == vm_run(prog.insts@, old(input).tokens@, *frags, old(input).pos as int, end as nat).pos,
        no_nonterminals(prog.insts@) ==> matched == matches_within(
            prog.insts@,
            old(input).tokens@,
            old(input).pos as int,
            end as nat,
        ),
{
    let mut parser = TokenStream::new(Vec::new());
    std::mem::swap(&mut parser, input);
    let mut nfa = Nfa { prog: prog, start: start, end: end, ic: 0, parser: parser, frags: frags };
    let matched = nfa.run();
    std::mem::swap(input, &mut nfa.parser);
    matched
}

} // verus!
