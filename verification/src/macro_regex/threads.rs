//! The VM's thread lists: a queue of threads with a sparse index over
//! instruction numbers, giving constant-time membership tests and no
//! allocation while the VM runs.
use vstd::prelude::*;

verus! {

/// One VM thread: the instruction it stands at, and the position of its
/// own token cursor, if it has one.
#[derive(Debug, Clone, Copy, PartialEq, Eq, Structural)]
pub struct Thread {
    pub pc: usize,
    pub parser: Option<usize>,
}

/// A set of threads over the instructions `0..capacity`, kept as a queue
/// in insertion order with a sparse index: `sparse[pc]` is the queue slot
/// of the thread at `pc` when that thread is present.
pub struct Threads {
    queue: Vec<Thread>,
    sparse: Vec<usize>,
    size: usize,
}

/// A sequence of distinct values below `n` has at most `n` elements.
pub(crate) proof fn lemma_distinct_below(s: Seq<usize>, n: nat)
    requires
        s.no_duplicates(),
        forall|i: int| 0 <= i < s.len() ==> s[i] < n,
    ensures
        s.len() <= n,
    decreases n,
{
    if n == 0 {
        if s.len() > 0 {
            assert(s[0] < 0);
        }
    } else {
        let top = (n - 1) as usize;
        if s.contains(top) {
            let j = s.index_of(top);
            let rest = s.subrange(0, j) + s.subrange(j + 1, s.len() as int);
            assert forall|i: int| 0 <= i < rest.len() implies rest[i] < n - 1 by {
                if i < j {
                    assert(rest[i] == s[i]);
                } else {
                    assert(rest[i] == s[i + 1]);
                }
            }
            assert(rest.no_duplicates()) by {
                assert forall|a: int, b: int| 0 <= a < rest.len() && 0 <= b < rest.len() && a != b
                    implies rest[a] != rest[b] by {
                    let sa = if a < j { a } else { a + 1 };
                    let sb = if b < j { b } else { b + 1 };
                    assert(rest[a] == s[sa]);
                    assert(rest[b] == s[sb]);
                }
            }
            lemma_distinct_below(rest, (n - 1) as nat);
        } else {
            assert forall|i: int| 0 <= i < s.len() implies s[i] < n - 1 by {
                assert(s[i] != top);
            }
            lemma_distinct_below(s, (n - 1) as nat);
        }
    }
}

impl Threads {
    /// The instructions of the threads in the set, in queue order.
    pub closed spec fn pcs(&self) -> Seq<usize> {
        Seq::new(self.size as nat, |i: int| self.queue@[i].pc)
    }

    /// The token cursor held by each queue slot, in use or not. A slot
    /// keeps its cursor when a later thread without one takes it over.
    pub closed spec fn parsers(&self) -> Seq<Option<usize>> {
        Seq::new(self.queue@.len(), |i: int| self.queue@[i].parser)
    }

    /// The number of instructions the set ranges over.
    pub closed spec fn capacity(&self) -> nat {
        self.queue@.len()
    }

    /// The queue and the sparse index agree: the thread in slot `i` stands
    /// at an instruction below the capacity whose index entry is `i`.
    pub closed spec fn wf(&self) -> bool {
        &&& self.sparse@.len() == self.queue@.len()
        &&& self.size <= self.queue@.len()
        &&& forall|i: int|
            0 <= i < self.size ==> {
                &&& (#[trigger] self.queue@[i]).pc < self.queue@.len()
                &&& self.sparse@[self.queue@[i].pc as int] == i
            }
    }

    /// In a well-formed set the threads stand at distinct instructions
    /// below the capacity, and one more thread fits for each instruction
    /// that is not in the set.
    pub proof fn lemma_wf(&self)
        requires
            self.wf(),
        ensures
            self.pcs().no_duplicates(),
            forall|i: int| 0 <= i < self.pcs().len() ==> self.pcs()[i] < self.capacity(),
            self.pcs().len() <= self.capacity(),
            self.parsers().len() == self.capacity(),
            forall|pc: usize|
                pc < self.capacity() && !self.pcs().contains(pc) ==> self.pcs().len() < self.capacity(),
    {
        let s = self.pcs();
        assert forall|a: int, b: int| 0 <= a < s.len() && 0 <= b < s.len() && a != b implies s[a] != s[b] by {
            assert(self.queue@[a].pc < self.queue@.len());
            assert(self.queue@[b].pc < self.queue@.len());
        }
        lemma_distinct_below(s, self.capacity());
        assert forall|pc: usize| pc < self.capacity() && !s.contains(pc) implies s.len() < self.capacity() by {
            let t = s.push(pc);
            assert forall|a: int, b: int| 0 <= a < t.len() && 0 <= b < t.len() && a != b implies t[a] != t[b] by {
                if a < s.len() && b < s.len() {
                    assert(t[a] == s[a] && t[b] == s[b]);
                } else if a < s.len() {
                    assert(t[a] == s[a]);
                } else if b < s.len() {
                    assert(t[b] == s[b]);
                }
            }
            assert forall|i: int| 0 <= i < t.len() implies t[i] < self.capacity() by {
                if i < s.len() {
                    assert(t[i] == s[i]);
                }
            }
            lemma_distinct_below(t, self.capacity());
        }
    }

    /// A set over `num_insts` instructions with no thread in it; every slot
    /// starts without a token cursor.
    pub fn new(num_insts: usize, ncaps: usize) -> (t: Threads)
        ensures
            t.wf(),
            t.capacity() == num_insts,
            t.pcs() == Seq::<usize>::empty(),
            t.parsers() == Seq::new(num_insts as nat, |i: int| None::<usize>),
    {
        let mut queue: Vec<Thread> = Vec::new();
        let mut sparse: Vec<usize> = Vec::new();
        let mut i: usize = 0;
        while i < num_insts
            invariant
                i <= num_insts,
                queue@.len() == i,
                sparse@.len() == i,
                forall|j: int| 0 <= j < i ==> queue@[j] == (Thread { pc: 0, parser: None }),
            decreases num_insts - i,
        {
            queue.push(Thread { pc: 0, parser: None });
            sparse.push(0);
            i += 1;
        }
        let t = Threads { queue, sparse, size: 0 };
        assert(t.pcs() =~= Seq::<usize>::empty());
        assert(t.parsers() =~= Seq::new(num_insts as nat, |i: int| None::<usize>));
        t
    }

    /// The number of threads in the set.
    pub fn size(&self) -> (n: usize)
        ensures
            n == self.pcs().len(),
    {
        self.size
    }

    /// Puts a thread at `pc` into the next free slot. The slot keeps the
    /// token cursor it held.
    pub fn add(&mut self, pc: usize, empty: bool)
        requires
            old(self).wf(),
            pc < old(self).capacity(),
            !old(self).pcs().contains(pc),
        ensures
            final(self).wf(),
            final(self).capacity() == old(self).capacity(),
            final(self).pcs() == old(self).pcs().push(pc),
            final(self).parsers() == old(self).parsers(),
    {
        proof {
            self.lemma_wf();
        }
        let slot = self.size;
        assert(slot < self.queue.len());
        let parser = self.queue[slot].parser;
        self.queue.set(slot, Thread { pc, parser });
        self.sparse.set(pc, slot);
        self.size = slot + 1;
        proof {
            assert forall|i: int| 0 <= i < self.size implies {
                &&& (#[trigger] self.queue@[i]).pc < self.queue@.len()
                &&& self.sparse@[self.queue@[i].pc as int] == i
            } by {
                if i < slot {
                    assert(old(self).queue@[i] == self.queue@[i]);
                    assert(old(self).pcs()[i] == self.queue@[i].pc);
                    assert(self.queue@[i].pc != pc);
                }
            }
            assert(self.pcs() =~= old(self).pcs().push(pc));
            assert(self.parsers() =~= old(self).parsers());
        }
    }

    /// Puts a thread at `pc` into the next free slot, with its own token
    /// cursor at `parser`.
    pub fn add_with_parser(&mut self, pc: usize, parser: usize)
        requires
            old(self).wf(),
            pc < old(self).capacity(),
            !old(self).pcs().contains(pc),
        ensures
            final(self).wf(),
            final(self).capacity() == old(self).capacity(),
            final(self).pcs() == old(self).pcs().push(pc),
            final(self).parsers() == old(self).parsers().update(old(self).pcs().len() as int, Some(parser)),
    {
        proof {
            self.lemma_wf();
        }
        let slot = self.size;
        assert(slot < self.queue.len());
        self.queue.set(slot, Thread { pc, parser: Some(parser) });
        self.sparse.set(pc, slot);
        self.size = slot + 1;
        proof {
            assert forall|i: int| 0 <= i < self.size implies {
                &&& (#[trigger] self.queue@[i]).pc < self.queue@.len()
                &&& self.sparse@[self.queue@[i].pc as int] == i
            } by {
                if i < slot {
                    assert(old(self).queue@[i] == self.queue@[i]);
                    assert(old(self).pcs()[i] == self.queue@[i].pc);
                    assert(self.queue@[i].pc != pc);
                }
            }
            assert(self.pcs() =~= old(self).pcs().push(pc));
            assert(self.parsers() =~= old(self).parsers().update(slot as int, Some(parser)));
        }
    }

    /// Whether a thread stands at `pc`.
    pub fn contains(&self, pc: usize) -> (b: bool)
        requires
            self.wf(),
            pc < self.capacity(),
        ensures
            b == self.pcs().contains(pc),
    {
        let s = self.sparse[pc];
        let b = s < self.size && self.queue[s].pc == pc;
        proof {
            if self.pcs().contains(pc) {
                let i = self.pcs().index_of(pc);
                assert(self.queue@[i].pc == pc);
            }
            if b {
                assert(self.pcs()[s as int] == pc);
            }
        }
        b
    }

    /// Removes every thread; the slots keep their token cursors.
    pub fn empty(&mut self)
        requires
            old(self).wf(),
        ensures
            final(self).wf(),
            final(self).capacity() == old(self).capacity(),
            final(self).pcs() == Seq::<usize>::empty(),
            final(self).parsers() == old(self).parsers(),
    {
        self.size = 0;
        assert(self.pcs() =~= Seq::<usize>::empty());
    }

    /// The instruction of the `i`-th thread and the token cursor of its slot.
    pub fn pc(&self, i: usize) -> (r: (usize, Option<usize>))
        requires
            self.wf(),
            i < self.pcs().len(),
        ensures
            r.0 == self.pcs()[i as int],
            r.1 == self.parsers()[i as int],
    {
        let t = self.queue[i];
        (t.pc, t.parser)
    }

    /// Replaces the token cursor of slot `i`.
    pub fn set_parser(&mut self, i: usize, parser: Option<usize>)
        requires
            old(self).wf(),
            i < old(self).capacity(),
        ensures
            final(self).wf(),
            final(self).capacity() == old(self).capacity(),
            final(self).pcs() == old(self).pcs(),
            final(self).parsers() == old(self).parsers().update(i as int, parser),
    {
        let pc = self.queue[i].pc;
        self.queue.set(i, Thread { pc, parser });
        proof {
            assert forall|j: int| 0 <= j < self.size implies {
                &&& (#[trigger] self.queue@[j]).pc < self.queue@.len()
                &&& self.sparse@[self.queue@[j].pc as int] == j
            } by {
                assert(self.queue@[j].pc == old(self).queue@[j].pc);
            }
            assert(self.pcs() =~= old(self).pcs());
            assert(self.parsers() =~= old(self).parsers().update(i as int, parser));
        }
    }
}

} // verus!
