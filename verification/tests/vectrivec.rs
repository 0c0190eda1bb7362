use macro_plugins::vectrivec::{
    consume, fast_iter, fast_iter_counter, fast_unwrap_iter_range, flatmap_iter, mk_iter, mk_iter2,
    mk_trivec, nested_iter, nested_iter_counter, nested_unwrap_iter, nested_unwrap_iter_range,
    trivec_iter, Segment, MASK, SIZE,
};

fn zeroed(n: usize) -> Vec<Segment> {
    let mut v = Vec::new();
    for _ in 0..n {
        v.push(([0u64; 8], [0u64; 8], [0u64; 8]));
    }
    v
}

/// A vector whose words all differ, so that rounds that mix them up show.
fn varied(n: usize) -> Vec<Segment> {
    let mut v = zeroed(n);
    for s in 0..n {
        for j in 0..8 {
            let base = (s * 8 + j) as u64;
            v[s].0[j] = base * 3 + 1;
            v[s].1[j] = base * 5 + 2;
            v[s].2[j] = base * 7 + 3;
        }
    }
    v
}

fn bumped(t: (u64, u64, u64), inc: u64) -> (u64, u64, u64) {
    (t.0.wrapping_add(inc), t.1.wrapping_add(t.2) | t.2, t.2.wrapping_add(2))
}

fn triple(v: &Vec<Segment>, k: usize) -> (u64, u64, u64) {
    (v[k / 8].0[k % 8], v[k / 8].1[k % 8], v[k / 8].2[k % 8])
}

/// Checks that the first `count` triples of `after` are those of `before`
/// updated (the `k`-th with hash increment `inc(k)`) and the rest are as
/// they were.
fn check_prefix(before: &Vec<Segment>, after: &Vec<Segment>, count: usize, inc: fn(usize) -> u64) {
    assert_eq!(before.len(), after.len());
    for k in 0..before.len() * 8 {
        let expected = if k < count { bumped(triple(before, k), inc(k)) } else { triple(before, k) };
        assert_eq!(triple(after, k), expected, "triple {}", k);
    }
}

fn one(_k: usize) -> u64 {
    1
}

fn position(k: usize) -> u64 {
    k as u64
}

#[test]
fn segment_constants() {
    assert_eq!(SIZE, 8);
    assert_eq!(MASK, 7);
}

#[test]
fn mk_trivec_gives_sixty_four_zeroed_segments() {
    let v = mk_trivec();
    assert_eq!(v.len(), 64);
    for seg in v.iter() {
        assert_eq!(*seg, ([0u64; 8], [0u64; 8], [0u64; 8]));
    }
}

#[test]
fn segment_cursor_hands_out_each_segment_once() {
    let v = zeroed(3);
    let mut segs = mk_iter(&v);
    for s in 0..3 {
        let mut items = segs.next().unwrap();
        for j in 0..8 {
            assert_eq!(items.next(), Some((s, j)));
        }
        assert_eq!(items.next(), None);
        assert_eq!(items.next(), None);
    }
    assert!(segs.next().is_none());
    assert!(segs.next().is_none());
}

#[test]
fn segment_cursor_of_an_empty_vector() {
    let v = zeroed(0);
    let mut segs = mk_iter(&v);
    assert!(segs.next().is_none());
}

#[test]
fn flat_cursor_walks_every_triple_in_order() {
    let v = zeroed(3);
    let mut it = mk_iter2(&v);
    for k in 0..24 {
        assert_eq!(it.next(), Some((k / 8, k % 8)));
    }
    assert_eq!(it.next(), None);
    assert_eq!(it.next(), None);
}

#[test]
fn consume_takes_a_segment_cursor() {
    let v = zeroed(2);
    consume(mk_iter(&v));
}

#[test]
fn fast_iter_updates_every_triple() {
    let mut v = mk_trivec();
    fast_iter(&mut v);
    for k in 0..512 {
        assert_eq!(triple(&v, k), (1, 0, 2));
    }
    fast_iter(&mut v);
    for k in 0..512 {
        assert_eq!(triple(&v, k), (2, 2, 4));
    }
}

#[test]
fn fast_iter_on_varied_values() {
    let before = varied(5);
    let mut v = before.clone();
    fast_iter(&mut v);
    check_prefix(&before, &v, 40, one);
}

#[test]
fn fast_iter_wraps_around() {
    let mut v = zeroed(1);
    v[0].0[3] = u64::MAX;
    v[0].1[3] = u64::MAX;
    v[0].2[3] = u64::MAX - 1;
    fast_iter(&mut v);
    assert_eq!(triple(&v, 3), (0, (u64::MAX).wrapping_add(u64::MAX - 1) | (u64::MAX - 1), 0));
}

#[test]
fn fast_iter_counter_on_sixty_four_segments_updates_all() {
    let before = mk_trivec();
    let mut v = before.clone();
    fast_iter_counter(&mut v);
    check_prefix(&before, &v, 512, one);
}

#[test]
fn fast_iter_counter_stops_after_the_limit() {
    let before = zeroed(8000);
    let mut v = before.clone();
    fast_iter_counter(&mut v);
    check_prefix(&before, &v, 64 * 999 + 1, one);
}

#[test]
fn fast_unwrap_iter_range_adds_the_position() {
    let before = mk_trivec();
    let mut v = before.clone();
    fast_unwrap_iter_range(&mut v);
    check_prefix(&before, &v, 63 * 8 - 3, position);
    assert_eq!(triple(&v, 500), (500, 0, 2));
    assert_eq!(triple(&v, 501), (0, 0, 0));
}

#[test]
fn nested_iter_updates_every_triple() {
    let before = varied(4);
    let mut v = before.clone();
    nested_iter(&mut v);
    check_prefix(&before, &v, 32, one);
}

#[test]
fn nested_iter_counter_leaves_the_last_two_triples() {
    let before = mk_trivec();
    let mut v = before.clone();
    nested_iter_counter(&mut v);
    check_prefix(&before, &v, 64 * 8 - 2, one);
    assert_eq!(triple(&v, 509), (1, 0, 2));
    assert_eq!(triple(&v, 510), (0, 0, 0));
}

#[test]
fn nested_iter_counter_on_a_short_vector_updates_all() {
    let before = varied(3);
    let mut v = before.clone();
    nested_iter_counter(&mut v);
    check_prefix(&before, &v, 24, one);
}

#[test]
fn nested_unwrap_iter_updates_every_triple() {
    let before = varied(6);
    let mut v = before.clone();
    nested_unwrap_iter(&mut v);
    check_prefix(&before, &v, 48, one);
}

#[test]
fn nested_unwrap_iter_range_adds_the_position() {
    let before = mk_trivec();
    let mut v = before.clone();
    nested_unwrap_iter_range(&mut v);
    check_prefix(&before, &v, 64 * 8 - 3, position);
}

#[test]
fn nested_unwrap_iter_range_on_a_short_vector_updates_all() {
    let before = varied(2);
    let mut v = before.clone();
    nested_unwrap_iter_range(&mut v);
    check_prefix(&before, &v, 16, position);
}

#[test]
fn flatmap_iter_updates_every_triple() {
    let before = varied(7);
    let mut v = before.clone();
    flatmap_iter(&mut v);
    check_prefix(&before, &v, 56, one);
}

#[test]
fn flatmap_iter_on_an_empty_vector() {
    let mut v = zeroed(0);
    flatmap_iter(&mut v);
    assert!(v.is_empty());
}

#[test]
fn the_walks_agree() {
    let before = varied(9);
    let mut a = before.clone();
    let mut b = before.clone();
    let mut c = before.clone();
    let mut d = before.clone();
    fast_iter(&mut a);
    nested_iter(&mut b);
    nested_unwrap_iter(&mut c);
    flatmap_iter(&mut d);
    assert_eq!(a, b);
    assert_eq!(a, c);
    assert_eq!(a, d);
}

fn word(v: &Vec<Segment>, w: usize) -> u64 {
    let (s, r) = (w / 24, w % 24);
    match r / 8 {
        0 => v[s].0[r % 8],
        1 => v[s].1[r % 8],
        _ => v[s].2[r % 8],
    }
}

#[test]
fn trivec_iter_reads_three_flat_arrays() {
    let mut v = mk_trivec();
    trivec_iter(&mut v);
    for w in 0..64 * 24 {
        let expected = if w < 512 { 1 } else if w < 1024 { 0 } else { 2 };
        assert_eq!(word(&v, w), expected, "word {}", w);
    }
    trivec_iter(&mut v);
    for w in 0..64 * 24 {
        let expected = if w < 512 { 2 } else if w < 1024 { 2 } else { 4 };
        assert_eq!(word(&v, w), expected, "word {}", w);
    }
}

#[test]
fn trivec_iter_on_varied_values() {
    let before = varied(3);
    let mut v = before.clone();
    trivec_iter(&mut v);
    let m = 24;
    for w in 0..72 {
        let expected = if w < m {
            word(&before, w).wrapping_add(1)
        } else if w < 2 * m {
            let x = word(&before, w + m);
            word(&before, w).wrapping_add(x) | x
        } else {
            word(&before, w).wrapping_add(2)
        };
        assert_eq!(word(&v, w), expected, "word {}", w);
    }
}

#[test]
fn the_flat_cursor_walks_as_the_nested_cursors() {
    let v = zeroed(5);
    let mut nested = Vec::new();
    let mut segs = mk_iter(&v);
    while let Some(mut items) = segs.next() {
        while let Some(p) = items.next() {
            nested.push(p);
        }
    }
    let mut flat = Vec::new();
    let mut it = mk_iter2(&v);
    while let Some(p) = it.next() {
        flat.push(p);
    }
    assert_eq!(flat.len(), 40);
    assert_eq!(flat, nested);
}
