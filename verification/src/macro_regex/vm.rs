//! The VM's run as a state machine: the order in which threads take queue
//! slots, one thread's step, one pass over the thread list, and the loop
//! of passes. Slots keep the token cursor of the last thread that set one,
//! so what a run gives depends on which slot each thread takes; these
//! definitions follow the slots.
use vstd::prelude::*;
use crate::macro_regex::nfa::is_prefix;
use crate::macro_regex::program::{Inst, inst_wf, program_wf};
use crate::macro_regex::syntax::{FragmentParses, Token, parse_nt_spec, token_at};
use crate::macro_regex::threads::lemma_distinct_below;

verus! {

/// The thread list `pcs` after the thread at `pc` and, depth first, the
/// threads it reaches without reading a token are appended: a thread
/// already present ends the search there; `Save` continues at the next
/// instruction, `Jump` at its target, `Split` at its first target and then
/// at its second. `fuel` bounds the depth of the search.
pub open spec fn add_order(insts: Seq<Inst>, pcs: Seq<usize>, pc: usize, fuel: nat) -> Seq<usize>
    decreases fuel,
{
    if fuel == 0 || pcs.contains(pc) || pc >= insts.len() {
        pcs
    } else {
        let s1 = pcs.push(pc);
        let f = (fuel - 1) as nat;
        match insts[pc as int] {
            Inst::Save(_) => add_order(insts, s1, (pc + 1) as usize, f),
            Inst::Jump(t) => add_order(insts, s1, t, f),
            Inst::Split(x, y) => add_order(insts, add_order(insts, s1, x, f), y, f),
            _ => s1,
        }
    }
}

/// The thread list `pcs` after the VM adds the thread at `pc` with the
/// threads it reaches without reading a token, in the order the VM adds
/// them. A search as deep as the program is long never runs out of fuel.
pub open spec fn added(insts: Seq<Inst>, pcs: Seq<usize>, pc: usize) -> Seq<usize> {
    add_order(insts, pcs, pc, insts.len())
}

/// A list of distinct instructions of the program.
pub open spec fn thread_list(insts: Seq<Inst>, pcs: Seq<usize>) -> bool {
    &&& pcs.no_duplicates()
    &&& forall|i: int| 0 <= i < pcs.len() ==> pcs[i] < insts.len()
}

proof fn lemma_push_thread(insts: Seq<Inst>, pcs: Seq<usize>, pc: usize)
    requires
        thread_list(insts, pcs),
        !pcs.contains(pc),
        pc < insts.len(),
    ensures
        thread_list(insts, pcs.push(pc)),
        pcs.len() < insts.len(),
        is_prefix(pcs, pcs.push(pc)),
{
    let t = pcs.push(pc);
    assert forall|a: int, b: int| 0 <= a < t.len() && 0 <= b < t.len() && a != b implies t[a] != t[b] by {
        if a < pcs.len() && b < pcs.len() {
            assert(t[a] == pcs[a] && t[b] == pcs[b]);
        } else if a < pcs.len() {
            assert(t[a] == pcs[a]);
        } else if b < pcs.len() {
            assert(t[b] == pcs[b]);
        }
    }
    assert forall|i: int| 0 <= i < t.len() implies t[i] < insts.len() by {
        if i < pcs.len() {
            assert(t[i] == pcs[i]);
        }
    }
    lemma_distinct_below(t, insts.len());
}

/// With enough fuel the search gives the same list whatever the fuel; the
/// list stays a list of distinct instructions that extends the old one and
/// holds `pc`.
pub proof fn lemma_add_order(insts: Seq<Inst>, pcs: Seq<usize>, pc: usize, f1: nat, f2: nat)
    requires
        program_wf(insts),
        thread_list(insts, pcs),
        pc < insts.len(),
        f1 + pcs.len() >= insts.len(),
        f2 + pcs.len() >= insts.len(),
    ensures
        add_order(insts, pcs, pc, f1) == add_order(insts, pcs, pc, f2),
        thread_list(insts, add_order(insts, pcs, pc, f1)),
        is_prefix(pcs, add_order(insts, pcs, pc, f1)),
        add_order(insts, pcs, pc, f1).contains(pc),
    decreases f1,
{
    if pcs.contains(pc) {
        return;
    }
    lemma_push_thread(insts, pcs, pc);
    let s1 = pcs.push(pc);
    let g1 = (f1 - 1) as nat;
    let g2 = (f2 - 1) as nat;
    assert(s1[pcs.len() as int] == pc);
    assert(inst_wf(insts[pc as int], pc as int, insts.len() as int));
    match insts[pc as int] {
        Inst::Save(_) => {
            lemma_add_order(insts, s1, (pc + 1) as usize, g1, g2);
            let r = add_order(insts, s1, (pc + 1) as usize, g1);
            assert(r[pcs.len() as int] == pc);
        },
        Inst::Jump(t) => {
            lemma_add_order(insts, s1, t, g1, g2);
            let r = add_order(insts, s1, t, g1);
            assert(r[pcs.len() as int] == pc);
        },
        Inst::Split(x, y) => {
            lemma_add_order(insts, s1, x, g1, g2);
            let a = add_order(insts, s1, x, g1);
            lemma_add_order(insts, a, y, g1, g2);
            let r = add_order(insts, a, y, g1);
            assert(a[pcs.len() as int] == pc);
            assert(r[pcs.len() as int] == pc);
        },
        _ => {},
    }
}

/// What `added` makes of a list of distinct instructions, starting at an
/// instruction of the program that is not in the list: the list with the
/// thread at `pc` and then the threads it leads to.
pub proof fn lemma_added_step(insts: Seq<Inst>, pcs: Seq<usize>, pc: usize)
    requires
        program_wf(insts),
        thread_list(insts, pcs),
        pc < insts.len(),
        !pcs.contains(pc),
    ensures
        added(insts, pcs, pc) == match insts[pc as int] {
            Inst::Save(_) => added(insts, pcs.push(pc), (pc + 1) as usize),
            Inst::Jump(t) => added(insts, pcs.push(pc), t),
            Inst::Split(x, y) => added(insts, added(insts, pcs.push(pc), x), y),
            _ => pcs.push(pc),
        },
{
    lemma_push_thread(insts, pcs, pc);
    let s1 = pcs.push(pc);
    let n = insts.len();
    let f = (n - 1) as nat;
    assert(inst_wf(insts[pc as int], pc as int, n as int));
    match insts[pc as int] {
        Inst::Save(_) => {
            lemma_add_order(insts, s1, (pc + 1) as usize, f, n);
        },
        Inst::Jump(t) => {
            lemma_add_order(insts, s1, t, f, n);
        },
        Inst::Split(x, y) => {
            lemma_add_order(insts, s1, x, f, n);
            let a = add_order(insts, s1, x, f);
            lemma_add_order(insts, a, y, f, n);
        },
        _ => {},
    }
}


/// The VM between two threads of a pass: the next list's threads and slot
/// cursors, the current list's slot cursors, the shared cursor, and whether
/// a thread matched.
pub struct Pass {
    pub npcs: Seq<usize>,
    pub nparsers: Seq<Option<usize>>,
    pub cparsers: Seq<Option<usize>>,
    pub pos: int,
    pub matched: bool,
}

/// `parsers` with the slots `from..to` holding a cursor at `q`.
pub open spec fn fill(parsers: Seq<Option<usize>>, from: int, to: int, q: usize) -> Seq<Option<usize>> {
    Seq::new(parsers.len(), |j: int| if from <= j < to { Some(q) } else { parsers[j] })
}

/// The step of the thread at `pc` in slot `i` of the current list. The
/// thread reads the token under its slot's cursor, or under the shared
/// cursor when the slot has none. `Match` matches. A token that is read
/// adds the next instruction's threads to the next list. A fragment that
/// parses does the same, gives those new threads cursors past the fragment
/// and moves the cursor the thread read past it too.
pub open spec fn thread_step(
    insts: Seq<Inst>,
    tokens: Seq<Token>,
    frags: FragmentParses,
    s: Pass,
    pc: usize,
    i: int,
) -> Pass {
    let popt = s.cparsers[i];
    let cur = match popt {
        Some(p) => p as int,
        None => s.pos,
    };
    match insts[pc as int] {
        Inst::Match => Pass { matched: true, ..s },
        Inst::OneTerminal(tok) => {
            if token_at(tokens, cur) == tok {
                Pass { npcs: added(insts, s.npcs, (pc + 1) as usize), ..s }
            } else {
                s
            }
        },
        Inst::OneNonterminal(_, kind, _) => match parse_nt_spec(tokens, frags, cur, kind) {
            Some(q) => {
                let npcs = added(insts, s.npcs, (pc + 1) as usize);
                let nparsers = fill(s.nparsers, s.npcs.len() as int, npcs.len() as int, q);
                match popt {
                    Some(_) => Pass { npcs, nparsers, cparsers: s.cparsers.update(i, Some(q)), ..s },
                    None => Pass { npcs, nparsers, pos: q as int, ..s },
                }
            },
            None => s,
        },
        _ => s,
    }
}

/// The VM after the first `i` threads of the current list `c` took their
/// steps, in list order, from `s`.
pub open spec fn pass_upto(
    insts: Seq<Inst>,
    tokens: Seq<Token>,
    frags: FragmentParses,
    c: Seq<usize>,
    s: Pass,
    i: nat,
) -> Pass
    decreases i,
{
    if i == 0 {
        s
    } else {
        let prev = pass_upto(insts, tokens, frags, c, s, (i - 1) as nat);
        thread_step(insts, tokens, frags, prev, c[i - 1], i - 1)
    }
}

/// The VM between two passes: the current list's threads and slot cursors,
/// the next list's slot cursors (its threads are gone), the shared cursor,
/// and whether a thread matched.
pub struct Vm {
    pub clist: Seq<usize>,
    pub cparsers: Seq<Option<usize>>,
    pub nparsers: Seq<Option<usize>>,
    pub pos: int,
    pub matched: bool,
}

/// The shared cursor after it moves on: it stays at the end of the input.
pub open spec fn moved_on(tokens: Seq<Token>, pos: int) -> int {
    if pos < tokens.len() {
        pos + 1
    } else {
        pos
    }
}

/// One pass: until a thread matched (or when no thread is left) a fresh
/// thread starts at the first instruction; every thread of the list takes
/// its step; the shared cursor moves on, and the next list becomes the
/// current one.
pub open spec fn vm_pass(insts: Seq<Inst>, tokens: Seq<Token>, frags: FragmentParses, vm: Vm) -> Vm {
    let c = if vm.clist.len() == 0 || !vm.matched {
        added(insts, vm.clist, 0)
    } else {
        vm.clist
    };
    let start = Pass {
        npcs: Seq::empty(),
        nparsers: vm.nparsers,
        cparsers: vm.cparsers,
        pos: vm.pos,
        matched: vm.matched,
    };
    let p = pass_upto(insts, tokens, frags, c, start, c.len());
    Vm {
        clist: p.npcs,
        cparsers: p.nparsers,
        nparsers: p.cparsers,
        pos: moved_on(tokens, p.pos),
        matched: p.matched,
    }
}

/// The VM after the passes numbered `ic` to `end`, stopping early once a
/// thread matched and no thread is left.
pub open spec fn vm_loop(insts: Seq<Inst>, tokens: Seq<Token>, frags: FragmentParses, vm: Vm, ic: nat, end: nat) -> Vm
    decreases end + 1 - ic,
{
    if ic > end || (vm.clist.len() == 0 && vm.matched) {
        vm
    } else {
        vm_loop(insts, tokens, frags, vm_pass(insts, tokens, frags, vm), ic + 1, end)
    }
}

/// The VM before its first pass over input whose cursor stands at `p0`: no
/// thread, no slot cursor.
pub open spec fn vm_start(insts: Seq<Inst>, p0: int) -> Vm {
    Vm {
        clist: Seq::empty(),
        cparsers: Seq::new(insts.len(), |i: int| None::<usize>),
        nparsers: Seq::new(insts.len(), |i: int| None::<usize>),
        pos: p0,
        matched: false,
    }
}

/// The VM at the end of a run of `end + 1` passes from position `p0`.
pub open spec fn vm_run(insts: Seq<Inst>, tokens: Seq<Token>, frags: FragmentParses, p0: int, end: nat) -> Vm {
    vm_loop(insts, tokens, frags, vm_start(insts, p0), 0, end)
}

} // verus!
