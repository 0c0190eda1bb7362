//! A vector of segments, each holding eight hashes, eight keys and eight
//! values in three arrays, and cursors that walk it triple by triple.
//!
//! The cursors hand out positions (segment, slot) rather than references;
//! the rounds below apply one update to every triple they reach.
use vstd::prelude::*;

verus! {

/// The number of triples in a segment.
pub const SIZE: usize = 8;

/// The mask of a slot index within a segment.
pub const MASK: usize = SIZE - 1;

/// A segment: eight hashes, eight keys and eight values.
pub type TriAry<H, K, V> = ([H; 8], [K; 8], [V; 8]);

/// A cursor over the segments of a vector.
pub struct VecTriArys {
    ptr: usize,
    end: usize,
}

/// A cursor over the slots of one segment.
pub struct TriAryItems {
    seg: usize,
    slot: usize,
}

/// A cursor over every triple of a vector, segment after segment.
pub struct VecTriAryItems {
    seg: usize,
    slot: usize,
    seg_next: usize,
    segments_end: usize,
}

impl VecTriArys {
    /// The segment the cursor hands out next.
    pub closed spec fn pos(&self) -> nat {
        self.ptr as nat
    }

    /// The number of segments.
    pub closed spec fn len(&self) -> nat {
        self.end as nat
    }

    pub closed spec fn wf(&self) -> bool {
        self.ptr <= self.end
    }

    /// A cursor over the `n` segments of a vector, at the first one.
    pub closed spec fn fresh(n: nat) -> VecTriArys {
        VecTriArys { ptr: 0, end: n as usize }
    }

    /// One call of `next`: the cursor after it and what it hands out.
    pub closed spec fn step(self) -> (VecTriArys, Option<TriAryItems>) {
        if self.ptr == self.end {
            (self, None)
        } else {
            (VecTriArys { ptr: (self.ptr + 1) as usize, end: self.end }, Some(TriAryItems { seg: self.ptr, slot: 0 }))
        }
    }

    /// A cursor over the slots of the next segment, if one is left.
    pub fn next(&mut self) -> (r: Option<TriAryItems>)
        requires
            old(self).wf(),
        ensures
            final(self).wf(),
            final(self).len() == old(self).len(),
            old(self).pos() < old(self).len() ==> {
                &&& final(self).pos() == old(self).pos() + 1
                &&& r matches Some(items) && items.wf() && items.seg() == old(self).pos() && items.slot() == 0
            },
            old(self).pos() >= old(self).len() ==> final(self).pos() == old(self).pos() && r is None,
            (*final(self), r) == old(self).step(),
    {
        if self.ptr == self.end {
            None
        } else {
            let r = TriAryItems { seg: self.ptr, slot: 0 };
            self.ptr = self.ptr + 1;
            Some(r)
        }
    }
}

impl TriAryItems {
    /// The segment the cursor walks.
    pub closed spec fn seg(&self) -> nat {
        self.seg as nat
    }

    /// The slot the cursor hands out next.
    pub closed spec fn slot(&self) -> nat {
        self.slot as nat
    }

    pub closed spec fn wf(&self) -> bool {
        self.slot <= SIZE
    }

    /// A cursor over the slots of segment `s`, at the first one.
    pub closed spec fn fresh(s: nat) -> TriAryItems {
        TriAryItems { seg: s as usize, slot: 0 }
    }

    /// One call of `next`: the cursor after it and what it hands out.
    pub closed spec fn step(self) -> (TriAryItems, Option<(usize, usize)>) {
        if self.slot >= SIZE {
            (self, None)
        } else {
            (TriAryItems { seg: self.seg, slot: (self.slot + 1) as usize }, Some((self.seg, self.slot)))
        }
    }

    /// The position of the next slot of the segment, if one is left.
    pub fn next(&mut self) -> (r: Option<(usize, usize)>)
        requires
            old(self).wf(),
        ensures
            final(self).wf(),
            final(self).seg() == old(self).seg(),
            old(self).slot() < SIZE ==> {
                &&& final(self).slot() == old(self).slot() + 1
                &&& r == Some((old(self).seg() as usize, old(self).slot() as usize))
            },
            old(self).slot() >= SIZE ==> final(self).slot() == old(self).slot() && r is None,
            (*final(self), r) == old(self).step(),
    {
        if self.slot >= SIZE {
            None
        } else {
            let r = (self.seg, self.slot);
            self.slot = self.slot + 1;
            Some(r)
        }
    }
}

impl VecTriAryItems {
    /// How many triples the cursor has handed out.
    pub closed spec fn position(&self) -> nat {
        (8 * self.seg + self.slot) as nat
    }

    /// The number of triples of the vector.
    pub closed spec fn total(&self) -> nat {
        (8 * self.segments_end) as nat
    }

    pub closed spec fn wf(&self) -> bool {
        &&& self.slot <= SIZE
        &&& self.seg_next == self.seg + 1
        &&& self.seg_next <= self.segments_end
    }

    /// A cursor over the triples of a vector of `n` segments, at the first
    /// one.
    pub closed spec fn fresh(n: nat) -> VecTriAryItems {
        VecTriAryItems { seg: 0, slot: 0, seg_next: 1, segments_end: n as usize }
    }

    /// One call of `next`: the cursor after it and what it hands out.
    pub closed spec fn step(self) -> (VecTriAryItems, Option<(usize, usize)>) {
        if self.slot >= SIZE {
            if self.seg_next == self.segments_end {
                (self, None)
            } else {
                (
                    VecTriAryItems {
                        seg: self.seg_next,
                        slot: 1,
                        seg_next: (self.seg_next + 1) as usize,
                        segments_end: self.segments_end,
                    },
                    Some((self.seg_next, 0)),
                )
            }
        } else {
            (VecTriAryItems { slot: (self.slot + 1) as usize, ..self }, Some((self.seg, self.slot)))
        }
    }

    /// The position of the next triple, if one is left: the triples come
    /// in order, slot by slot and segment after segment.
    pub fn next(&mut self) -> (r: Option<(usize, usize)>)
        requires
            old(self).wf(),
        ensures
            final(self).wf(),
            final(self).total() == old(self).total(),
            old(self).position() < old(self).total() ==> {
                &&& final(self).position() == old(self).position() + 1
                &&& r matches Some(p) && 8 * p.0 + p.1 == old(self).position() && p.1 < SIZE
            },
            old(self).position() >= old(self).total() ==> final(self).position() == old(self).position()
                && r is None,
            (*final(self), r) == old(self).step(),
    {
        if self.slot >= SIZE {
            if self.seg_next == self.segments_end {
                return None;
            } else {
                self.seg = self.seg_next;
                self.slot = 0;
                self.seg_next = self.seg_next + 1;
            }
        }
        let r = (self.seg, self.slot);
        self.slot = self.slot + 1;
        Some(r)
    }
}

/// What `k` calls of `next` on the segment cursor `it` hand out, in order.
pub open spec fn segment_outputs(it: VecTriArys, k: nat) -> Seq<Option<TriAryItems>>
    decreases k,
{
    if k == 0 {
        Seq::empty()
    } else {
        seq![it.step().1] + segment_outputs(it.step().0, (k - 1) as nat)
    }
}

/// What `k` calls of `next` on the slot cursor `it` hand out, in order.
pub open spec fn slot_outputs(it: TriAryItems, k: nat) -> Seq<Option<(usize, usize)>>
    decreases k,
{
    if k == 0 {
        Seq::empty()
    } else {
        seq![it.step().1] + slot_outputs(it.step().0, (k - 1) as nat)
    }
}

/// What `k` calls of `next` on the flat cursor `it` hand out, in order.
pub open spec fn flat_outputs(it: VecTriAryItems, k: nat) -> Seq<Option<(usize, usize)>>
    decreases k,
{
    if k == 0 {
        Seq::empty()
    } else {
        seq![it.step().1] + flat_outputs(it.step().0, (k - 1) as nat)
    }
}

/// The segment and slot of the `m`-th triple.
pub open spec fn place(m: int) -> (usize, usize) {
    ((m / 8) as usize, (m % 8) as usize)
}

proof fn lemma_place(s: int, j: int)
    requires
        0 <= s,
        0 <= j < 8,
    ensures
        (8 * s + j) / 8 == s,
        (8 * s + j) % 8 == j,
{
    assert((8 * s + j) / 8 == s && (8 * s + j) % 8 == j) by (nonlinear_arith)
        requires
            0 <= s,
            0 <= j < 8,
    ;
}

/// The segment cursor hands out a cursor over each segment, from the first
/// to the last, each at its first slot, and then `None` on every call.
pub proof fn lemma_segment_cursor(n: nat, k: nat)
    requires
        n <= usize::MAX,
    ensures
        segment_outputs(VecTriArys::fresh(n), k) == Seq::new(
            k,
            |s: int| if s < n { Some(TriAryItems::fresh(s as nat)) } else { None },
        ),
{
    lemma_segment_cursor_from(VecTriArys::fresh(n), k);
}

proof fn lemma_segment_cursor_from(it: VecTriArys, k: nat)
    requires
        it.wf(),
    ensures
        segment_outputs(it, k) == Seq::new(
            k,
            |s: int| if it.ptr + s < it.end { Some(TriAryItems::fresh((it.ptr + s) as nat)) } else { None },
        ),
    decreases k,
{
    if k > 0 {
        lemma_segment_cursor_from(it.step().0, (k - 1) as nat);
        assert(segment_outputs(it, k) =~= Seq::new(
            k,
            |s: int| if it.ptr + s < it.end { Some(TriAryItems::fresh((it.ptr + s) as nat)) } else { None },
        ));
    } else {
        assert(segment_outputs(it, k) =~= Seq::new(
            k,
            |s: int| if it.ptr + s < it.end { Some(TriAryItems::fresh((it.ptr + s) as nat)) } else { None },
        ));
    }
}

/// A slot cursor hands out the eight slots of its segment in order and then
/// `None` on every call.
pub proof fn lemma_slot_cursor(s: nat, k: nat)
    requires
        s <= usize::MAX,
    ensures
        slot_outputs(TriAryItems::fresh(s), k) == Seq::new(
            k,
            |j: int| if j < 8 { Some((s as usize, j as usize)) } else { None },
        ),
{
    lemma_slot_cursor_from(TriAryItems::fresh(s), k);
}

proof fn lemma_slot_cursor_from(it: TriAryItems, k: nat)
    requires
        it.wf(),
    ensures
        slot_outputs(it, k) == Seq::new(
            k,
            |j: int| if it.slot + j < 8 { Some((it.seg, (it.slot + j) as usize)) } else { None },
        ),
    decreases k,
{
    if k > 0 {
        lemma_slot_cursor_from(it.step().0, (k - 1) as nat);
    }
    assert(slot_outputs(it, k) =~= Seq::new(
        k,
        |j: int| if it.slot + j < 8 { Some((it.seg, (it.slot + j) as usize)) } else { None },
    ));
}

/// The flat cursor over a vector of `n` segments hands out its `8 * n`
/// triples once each, segment after segment and slot after slot, and then
/// `None` on every call.
pub proof fn lemma_flat_cursor(n: nat, k: nat)
    requires
        1 <= n <= usize::MAX,
    ensures
        flat_outputs(VecTriAryItems::fresh(n), k) == Seq::new(
            k,
            |m: int| if m < 8 * n { Some(place(m)) } else { None },
        ),
{
    lemma_flat_cursor_from(VecTriAryItems::fresh(n), k);
}

proof fn lemma_flat_cursor_from(it: VecTriAryItems, k: nat)
    requires
        it.wf(),
    ensures
        flat_outputs(it, k) == Seq::new(
            k,
            |m: int| if it.position() + m < it.total() { Some(place(it.position() + m)) } else { None },
        ),
    decreases k,
{
    let expected = Seq::new(
        k,
        |m: int| if it.position() + m < it.total() { Some(place(it.position() + m)) } else { None },
    );
    if k > 0 {
        let (it2, r) = it.step();
        lemma_flat_cursor_from(it2, (k - 1) as nat);
        if it.slot < SIZE {
            lemma_place(it.seg as int, it.slot as int);
            assert(r == expected[0]);
            assert(it2.position() == it.position() + 1);
        } else if it.seg_next != it.segments_end {
            lemma_place(it.seg_next as int, 0);
            assert(r == expected[0]);
            assert(it2.position() == it.position() + 1);
        } else {
            assert(it.position() == it.total());
        }
        assert forall|m: int| 0 <= m < k implies #[trigger] flat_outputs(it, k)[m] == expected[m] by {
            if m > 0 {
                assert(flat_outputs(it, k)[m] == flat_outputs(it2, (k - 1) as nat)[m - 1]);
            }
        }
    }
    assert(flat_outputs(it, k) =~= expected);
}

/// The flat cursor walks the triples as the nested cursors do: its `m`-th
/// triple is the `(m % 8)`-th that the cursor of the `(m / 8)`-th segment
/// hands out. Both walks hand out `8 * n` triples.
pub proof fn lemma_flat_is_nested(n: nat, m: int)
    requires
        1 <= n <= usize::MAX,
        0 <= m < 8 * n,
    ensures
        segment_outputs(VecTriArys::fresh(n), n)[m / 8] matches Some(items) && slot_outputs(items, 8)[m % 8]
            == flat_outputs(VecTriAryItems::fresh(n), 8 * n)[m],
{
    lemma_segment_cursor(n, n);
    lemma_flat_cursor(n, 8 * n);
    assert(m == 8 * (m / 8) + m % 8 && 0 <= m % 8 < 8 && 0 <= m / 8 < n) by (nonlinear_arith)
        requires
            0 <= m < 8 * n,
        ;
    lemma_slot_cursor((m / 8) as nat, 8);
}

/// A cursor over the segments of `v`.
pub fn mk_iter<H, K, V>(v: &Vec<TriAry<H, K, V>>) -> (it: VecTriArys)
    ensures
        it.wf(),
        it.pos() == 0,
        it.len() == v@.len(),
        it == VecTriArys::fresh(v@.len()),
{
    VecTriArys { ptr: 0, end: v.len() }
}

/// A cursor over the triples of `v`, which has at least one segment.
pub fn mk_iter2<H, K, V>(v: &Vec<TriAry<H, K, V>>) -> (it: VecTriAryItems)
    requires
        v@.len() >= 1,
    ensures
        it.wf(),
        it.position() == 0,
        it.total() == 8 * v@.len(),
        it == VecTriAryItems::fresh(v@.len()),
{
    VecTriAryItems { seg: 0, slot: 0, seg_next: 1, segments_end: v.len() }
}

/// Takes a segment cursor and drops it.
pub fn consume(i: VecTriArys) {
}


/// A segment of hashes, keys and values that are all `u64`.
pub type Segment = TriAry<u64, u64, u64>;

/// The array `p` of a segment: 0 the hashes, 1 the keys, 2 the values.
pub open spec fn part(seg: Segment, p: int) -> Seq<u64> {
    if p == 0 {
        seg.0@
    } else if p == 1 {
        seg.1@
    } else {
        seg.2@
    }
}

/// Slot `j` of array `p` of segment `s`.
pub open spec fn cell(v: Seq<Segment>, s: int, p: int, j: int) -> u64 {
    part(v[s], p)[j]
}

/// What one update makes of slot `j` of array `p` of segment `s`: the hash
/// grows by `inc`, the key becomes `(key + value) | value` and the value
/// grows by two, all wrapping as `u64` does.
pub open spec fn bumped_cell(v: Seq<Segment>, s: int, p: int, j: int, inc: u64) -> u64 {
    let h = cell(v, s, 0, j);
    let k = cell(v, s, 1, j);
    let x = cell(v, s, 2, j);
    if p == 0 {
        h.wrapping_add(inc)
    } else if p == 1 {
        k.wrapping_add(x) | x
    } else {
        x.wrapping_add(2)
    }
}

/// `new` is `old` with its first `count` triples, in order, updated, the
/// `k`-th with the hash increment `inc(k)`, and the others as they were.
pub open spec fn updated_prefix(
    old: Seq<Segment>,
    new: Seq<Segment>,
    count: int,
    inc: spec_fn(int) -> u64,
) -> bool {
    &&& new.len() == old.len()
    &&& forall|s: int, p: int, j: int|
        #![trigger cell(new, s, p, j)]
        0 <= s < old.len() && 0 <= p < 3 && 0 <= j < 8 ==> cell(new, s, p, j) == if 8 * s + j
            < count {
            bumped_cell(old, s, p, j, inc(8 * s + j))
        } else {
            cell(old, s, p, j)
        }
}

/// The hash increment of the rounds that add one to every hash.
pub open spec fn by_one() -> spec_fn(int) -> u64 {
    |k: int| 1u64
}

/// The hash increment of the rounds that add the triple's position.
pub open spec fn by_position() -> spec_fn(int) -> u64 {
    |k: int| k as u64
}

/// Applies one update to the triple in slot `j` of segment `s`.
fn bump_item(v: &mut Vec<Segment>, s: usize, j: usize, inc: u64)
    requires
        s < old(v)@.len(),
        j < SIZE,
    ensures
        final(v)@.len() == old(v)@.len(),
        forall|s2: int, p: int, j2: int|
            #![trigger cell(final(v)@, s2, p, j2)]
            0 <= s2 < old(v)@.len() && 0 <= p < 3 && 0 <= j2 < 8 ==> cell(final(v)@, s2, p, j2)
                == if s2 == s && j2 == j {
                bumped_cell(old(v)@, s2, p, j2, inc)
            } else {
                cell(old(v)@, s2, p, j2)
            },
{
    let (mut hs, mut ks, mut xs) = v[s];
    let h = hs[j];
    let k = ks[j];
    let x = xs[j];
    hs[j] = h.wrapping_add(inc);
    ks[j] = k.wrapping_add(x) | x;
    xs[j] = x.wrapping_add(2);
    v.set(s, (hs, ks, xs));
}

/// A vector of sixty-four segments whose hashes, keys and values are all 0.
pub fn mk_trivec() -> (v: Vec<Segment>)
    ensures
        v@.len() == 64,
        forall|s: int, p: int, j: int|
            #![trigger cell(v@, s, p, j)]
            0 <= s < 64 && 0 <= p < 3 && 0 <= j < 8 ==> cell(v@, s, p, j) == 0,
{
    let mut v: Vec<Segment> = Vec::new();
    let mut i: usize = 0;
    while i < 64
        invariant
            i <= 64,
            v@.len() == i,
            forall|s: int, p: int, j: int|
                #![trigger cell(v@, s, p, j)]
                0 <= s < i && 0 <= p < 3 && 0 <= j < 8 ==> cell(v@, s, p, j) == 0,
        decreases 64 - i,
    {
        let zero: Segment = ([0u64; 8], [0u64; 8], [0u64; 8]);
        let ghost before = v@;
        v.push(zero);
        proof {
            assert forall|s: int, p: int, j: int|
                0 <= s < i + 1 && 0 <= p < 3 && 0 <= j < 8 implies #[trigger] cell(v@, s, p, j)
                == 0 by {
                if s < i {
                    assert(v@[s] == before[s]);
                    assert(cell(before, s, p, j) == 0);
                } else {
                    assert(v@[s] == zero);
                    assert(zero.0@[j] == 0 && zero.1@[j] == 0 && zero.2@[j] == 0);
                }
            }
        }
        i = i + 1;
    }
    v
}


/// One round over the flat cursor: every triple, in order, gets one update
/// with the hash growing by one.
pub fn fast_iter(v: &mut Vec<Segment>)
    requires
        old(v)@.len() >= 1,
    ensures
        updated_prefix(old(v)@, final(v)@, 8 * old(v)@.len() as int, by_one()),
{
    let ghost orig = v@;
    let mut iter = mk_iter2(v);
    loop
        invariant_except_break
            iter.wf(),
            iter.total() == 8 * orig.len(),
            iter.position() <= iter.total(),
            updated_prefix(orig, v@, iter.position() as int, by_one()),
        ensures
            updated_prefix(orig, v@, 8 * orig.len() as int, by_one()),
        decreases iter.total() - iter.position(),
    {
        match iter.next() {
            Some((s, j)) => {
                bump_item(v, s, j, 1);
            },
            None => {
                break;
            },
        }
    }
}


/// The smaller of two counts.
pub open spec fn min_count(a: int, b: int) -> int {
    if a < b {
        a
    } else {
        b
    }
}

/// One round over the flat cursor that stops once more than `64 * 999`
/// triples were updated: the first `min(8 * len, 64 * 999 + 1)` triples, in
/// order, get one update with the hash growing by one.
pub fn fast_iter_counter(v: &mut Vec<Segment>)
    requires
        old(v)@.len() >= 1,
    ensures
        updated_prefix(
            old(v)@,
            final(v)@,
            min_count(8 * old(v)@.len() as int, (64 * 999 + 1) as int),
            by_one(),
        ),
{
    let ghost orig = v@;
    let size: usize = 64 * 999;
    let mut n: usize = 0;
    let mut iter = mk_iter2(v);
    loop
        invariant_except_break
            iter.wf(),
            iter.total() == 8 * orig.len(),
            iter.position() <= iter.total(),
            orig == old(v)@,
            n == iter.position(),
            n <= size,
            size == 64 * 999,
            updated_prefix(orig, v@, iter.position() as int, by_one()),
        ensures
            updated_prefix(orig, v@, 8 * orig.len() as int, by_one()),
            8 * orig.len() <= size,
        decreases iter.total() - iter.position(),
    {
        match iter.next() {
            Some((s, j)) => {
                bump_item(v, s, j, 1);
                n = n + 1;
                if n > size {
                    return;
                }
            },
            None => {
                break;
            },
        }
    }
}

/// One round that takes exactly `63 * 8 - 3` triples from the flat cursor,
/// which must hold that many: the `k`-th triple gets one update with the
/// hash growing by `k`.
pub fn fast_unwrap_iter_range(v: &mut Vec<Segment>)
    requires
        8 * old(v)@.len() >= 63 * 8 - 3,
    ensures
        updated_prefix(old(v)@, final(v)@, 63 * 8 - 3, by_position()),
{
    let ghost orig = v@;
    let mut iter = mk_iter2(v);
    let mut i: usize = 0;
    while i < 63 * 8 - 3
        invariant
            i <= 63 * 8 - 3,
            iter.wf(),
            iter.total() == 8 * orig.len(),
            iter.total() >= 63 * 8 - 3,
            iter.position() == i,
            updated_prefix(orig, v@, i as int, by_position()),
        decreases 63 * 8 - 3 - i,
    {
        let (s, j) = iter.next().unwrap();
        bump_item(v, s, j, i as u64);
        i = i + 1;
    }
}

/// One round over the segment cursor, segment after segment and slot after
/// slot: every triple gets one update with the hash growing by one.
pub fn nested_iter(v: &mut Vec<Segment>)
    ensures
        updated_prefix(old(v)@, final(v)@, 8 * old(v)@.len() as int, by_one()),
{
    let ghost orig = v@;
    let mut segs = mk_iter(v);
    loop
        invariant_except_break
            segs.wf(),
            segs.len() == orig.len(),
            updated_prefix(orig, v@, 8 * segs.pos() as int, by_one()),
        ensures
            updated_prefix(orig, v@, 8 * orig.len() as int, by_one()),
        decreases segs.len() - segs.pos(),
    {
        match segs.next() {
            Some(mut items) => {
                loop
                    invariant
                        items.wf(),
                        items.seg() + 1 == segs.pos(),
                        segs.wf(),
                        segs.len() == orig.len(),
                        updated_prefix(orig, v@, (8 * items.seg() + items.slot()) as int, by_one()),
                    ensures
                        items.slot() == SIZE,
                    decreases SIZE - items.slot(),
                {
                    match items.next() {
                        Some((s, j)) => {
                            bump_item(v, s, j, 1);
                        },
                        None => {
                            break;
                        },
                    }
                }
            },
            None => {
                break;
            },
        }
    }
}

/// One round over the segment cursor that stops once more than `64 * 8 - 3`
/// triples were updated: the first `min(8 * len, 64 * 8 - 2)` triples, in
/// order, get one update with the hash growing by one.
pub fn nested_iter_counter(v: &mut Vec<Segment>)
    ensures
        updated_prefix(
            old(v)@,
            final(v)@,
            min_count(8 * old(v)@.len() as int, (64 * 8 - 2) as int),
            by_one(),
        ),
{
    let ghost orig = v@;
    let size: usize = 64 * 8 - 3;
    let mut n: usize = 0;
    let mut segs = mk_iter(v);
    loop
        invariant_except_break
            segs.wf(),
            segs.len() == orig.len(),
            orig == old(v)@,
            n == 8 * segs.pos(),
            n <= size,
            size == 64 * 8 - 3,
            updated_prefix(orig, v@, n as int, by_one()),
        ensures
            updated_prefix(orig, v@, 8 * orig.len() as int, by_one()),
            8 * orig.len() <= size,
        decreases segs.len() - segs.pos(),
    {
        match segs.next() {
            Some(mut items) => {
                loop
                    invariant
                        orig == old(v)@,
                        items.wf(),
                        items.seg() + 1 == segs.pos(),
                        segs.wf(),
                        segs.len() == orig.len(),
                        n == 8 * items.seg() + items.slot(),
                        n <= size,
                        size == 64 * 8 - 3,
                        updated_prefix(orig, v@, n as int, by_one()),
                    ensures
                        items.slot() == SIZE,
                    decreases SIZE - items.slot(),
                {
                    match items.next() {
                        Some((s, j)) => {
                            bump_item(v, s, j, 1);
                            n = n + 1;
                            if n > size {
                                return;
                            }
                        },
                        None => {
                            break;
                        },
                    }
                }
            },
            None => {
                break;
            },
        }
    }
}


/// One round that walks the segment cursor by hand, taking the first
/// segment's cursor with an unwrap (so the vector holds a segment) and moving
/// to the next segment when a slot cursor runs out: every triple, in order,
/// gets one update with the hash growing by one.
pub fn nested_unwrap_iter(v: &mut Vec<Segment>)
    requires
        old(v)@.len() >= 1,
    ensures
        updated_prefix(old(v)@, final(v)@, 8 * old(v)@.len() as int, by_one()),
{
    let ghost orig = v@;
    let mut segs = mk_iter(v);
    let mut triple = segs.next().unwrap();
    loop
        invariant_except_break
            segs.wf(),
            segs.len() == orig.len(),
            triple.wf(),
            triple.seg() + 1 == segs.pos(),
            updated_prefix(orig, v@, (8 * triple.seg() + triple.slot()) as int, by_one()),
        ensures
            updated_prefix(orig, v@, 8 * orig.len() as int, by_one()),
        decreases 9 * (segs.len() - segs.pos()) + SIZE - triple.slot(),
    {
        let mut step = triple.next();
        if step.is_none() {
            match segs.next() {
                Some(items) => {
                    triple = items;
                    step = triple.next();
                },
                None => {
                    break;
                },
            }
        }
        let (s, j) = step.unwrap();
        bump_item(v, s, j, 1);
    }
}

/// Like `nested_unwrap_iter`, for at most `64 * 8 - 3` triples: the first
/// `min(8 * len, 64 * 8 - 3)` triples, in order, get one update, the `k`-th
/// with the hash growing by `k`.
pub fn nested_unwrap_iter_range(v: &mut Vec<Segment>)
    requires
        old(v)@.len() >= 1,
    ensures
        updated_prefix(
            old(v)@,
            final(v)@,
            min_count(8 * old(v)@.len() as int, (64 * 8 - 3) as int),
            by_position(),
        ),
{
    let ghost orig = v@;
    let mut segs = mk_iter(v);
    let mut triple = segs.next().unwrap();
    let mut i: usize = 0;
    while i < 64 * 8 - 3
        invariant_except_break
            segs.wf(),
            segs.len() == orig.len(),
            triple.wf(),
            triple.seg() + 1 == segs.pos(),
            i <= 64 * 8 - 3,
            i == 8 * triple.seg() + triple.slot(),
            updated_prefix(orig, v@, i as int, by_position()),
        ensures
            updated_prefix(
                orig,
                v@,
                min_count(8 * orig.len() as int, (64 * 8 - 3) as int),
                by_position(),
            ),
        decreases 64 * 8 - 3 - i,
    {
        let mut step = triple.next();
        if step.is_none() {
            match segs.next() {
                Some(items) => {
                    triple = items;
                    step = triple.next();
                },
                None => {
                    break;
                },
            }
        }
        let (s, j) = step.unwrap();
        bump_item(v, s, j, i as u64);
        i = i + 1;
    }
}

/// One round over the triples of all segments flattened into one sequence,
/// the way a flat map over the segment cursor walks them: a current slot
/// cursor is drained, and when it runs out the next segment's cursor takes
/// its place. Every triple, in order, gets one update with the hash growing
/// by one.
pub fn flatmap_iter(v: &mut Vec<Segment>)
    ensures
        updated_prefix(old(v)@, final(v)@, 8 * old(v)@.len() as int, by_one()),
{
    let ghost orig = v@;
    let mut segs = mk_iter(v);
    let mut front: Option<TriAryItems> = None;
    loop
        invariant_except_break
            segs.wf(),
            segs.len() == orig.len(),
            match front {
                Some(items) => {
                    &&& items.wf()
                    &&& items.seg() + 1 == segs.pos()
                    &&& updated_prefix(
                        orig,
                        v@,
                        (8 * items.seg() + items.slot()) as int,
                        by_one(),
                    )
                },
                None => segs.pos() == 0 && updated_prefix(orig, v@, 0, by_one()),
            },
        ensures
            updated_prefix(orig, v@, 8 * orig.len() as int, by_one()),
        decreases 9 * (segs.len() - segs.pos()) + match front {
            Some(items) => SIZE - items.slot(),
            None => 0,
        },
    {
        let mut item: Option<(usize, usize)> = None;
        match front {
            Some(mut items) => {
                item = items.next();
                front = Some(items);
            },
            None => {},
        }
        match item {
            Some((s, j)) => {
                bump_item(v, s, j, 1);
            },
            None => {
                match segs.next() {
                    Some(items) => {
                        front = Some(items);
                    },
                    None => {
                        break;
                    },
                }
            },
        }
    }
}


/// Word `w` of the vector read as one flat run of `u64`: segment after
/// segment, each its eight hashes, then its eight keys, then its eight values.
pub open spec fn word(v: Seq<Segment>, w: int) -> u64 {
    let r = w % 24;
    cell(v, w / 24, r / 8, r % 8)
}

/// Word `w` after one round of `trivec_iter` on `v`, which reads the flat run
/// as three arrays of `8 * len` words each: hashes, keys and values.
pub open spec fn flat_round(v: Seq<Segment>, w: int) -> u64 {
    let m = 8 * v.len();
    if w < m {
        word(v, w).wrapping_add(1)
    } else if w < 2 * m {
        let x = word(v, w + m);
        word(v, w).wrapping_add(x) | x
    } else {
        word(v, w).wrapping_add(2)
    }
}

/// Reads word `w` of the flat run.
fn get_word(v: &Vec<Segment>, w: usize) -> (r: u64)
    requires
        w < 24 * v@.len(),
    ensures
        r == word(v@, w as int),
{
    let s = w / 24;
    let r = w % 24;
    let p = r / 8;
    let j = r % 8;
    let seg = &v[s];
    if p == 0 {
        seg.0[j]
    } else if p == 1 {
        seg.1[j]
    } else {
        seg.2[j]
    }
}

/// Writes `x` into word `w` of the flat run and leaves every other word.
fn set_word(v: &mut Vec<Segment>, w: usize, x: u64)
    requires
        w < 24 * old(v)@.len(),
    ensures
        final(v)@.len() == old(v)@.len(),
        forall|w2: int|
            0 <= w2 < 24 * old(v)@.len() ==> #[trigger] word(final(v)@, w2) == if w2 == w {
                x
            } else {
                word(old(v)@, w2)
            },
{
    let s = w / 24;
    let r = w % 24;
    let p = r / 8;
    let j = r % 8;
    let (mut hs, mut ks, mut xs) = v[s];
    if p == 0 {
        hs[j] = x;
    } else if p == 1 {
        ks[j] = x;
    } else {
        xs[j] = x;
    }
    v.set(s, (hs, ks, xs));
}

/// Whether word `w` was already handled after the first `i` steps of
/// `trivec_iter` on a vector of `m / 8` segments.
pub open spec fn flat_done(w: int, i: int, m: int) -> bool {
    ||| 0 <= w < i
    ||| m <= w < m + i
    ||| 2 * m <= w < 2 * m + i
}

/// One round that reads the vector as one flat run of `24 * len` words split
/// into three arrays (hashes, keys, values) of `8 * len` words each, and
/// updates position `i` of the three for every `i`: the hash grows by one,
/// the key becomes `(key + value) | value`, the value grows by two.
pub fn trivec_iter(v: &mut Vec<Segment>)
    requires
        24 * old(v)@.len() <= usize::MAX,
    ensures
        final(v)@.len() == old(v)@.len(),
        forall|w: int|
            0 <= w < 24 * old(v)@.len() ==> #[trigger] word(final(v)@, w) == flat_round(
                old(v)@,
                w,
            ),
{
    let ghost orig = v@;
    let len = v.len() * 8;
    let mut i: usize = 0;
    while i < len
        invariant
            orig == old(v)@,
            len == 8 * orig.len(),
            24 * orig.len() <= usize::MAX,
            i <= len,
            v@.len() == orig.len(),
            forall|w: int|
                0 <= w < 24 * orig.len() ==> #[trigger] word(v@, w) == if flat_done(
                    w,
                    i as int,
                    len as int,
                ) {
                    flat_round(orig, w)
                } else {
                    word(orig, w)
                },
        decreases len - i,
    {
        let h = get_word(v, i);
        set_word(v, i, h.wrapping_add(1));
        let k = get_word(v, len + i);
        let x = get_word(v, 2 * len + i);
        set_word(v, len + i, k.wrapping_add(x) | x);
        set_word(v, 2 * len + i, x.wrapping_add(2));
        i = i + 1;
    }
}


/// The rounds are deterministic and agree with one another: two vectors that
/// both result from updating the same first `count` triples of `before` with
/// the same increments are equal. So `fast_iter`, `nested_iter`,
/// `nested_unwrap_iter` and `flatmap_iter`, which walk the triples in
/// different ways, leave the same vector behind.
pub proof fn lemma_rounds_agree(
    before: Seq<Segment>,
    a: Seq<Segment>,
    b: Seq<Segment>,
    count: int,
    inc: spec_fn(int) -> u64,
)
    requires
        updated_prefix(before, a, count, inc),
        updated_prefix(before, b, count, inc),
    ensures
        a == b,
{
    assert forall|s: int| 0 <= s < a.len() implies a[s] == b[s] by {
        assert forall|j: int| 0 <= j < 8 implies a[s].0@[j] == b[s].0@[j] && a[s].1@[j]
            == b[s].1@[j] && a[s].2@[j] == b[s].2@[j] by {
            assert(cell(a, s, 0, j) == cell(b, s, 0, j));
            assert(cell(a, s, 1, j) == cell(b, s, 1, j));
            assert(cell(a, s, 2, j) == cell(b, s, 2, j));
        }
        assert(a[s].0 =~= b[s].0);
        assert(a[s].1 =~= b[s].1);
        assert(a[s].2 =~= b[s].2);
    }
    assert(a =~= b);
}

} // verus!
