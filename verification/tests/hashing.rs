use macro_plugins::hashing::{merge_slice, MySlice};

#[test]
fn merge_slice_of_the_sample_bytes() {
    let val: &[u8] = &[12, 23, 34, 45, 12];
    assert_eq!(merge_slice(val), MySlice { start: 0, len: 5, end: 1 });
}

#[test]
fn merge_slice_of_an_empty_slice() {
    let val: &[u8] = &[];
    assert_eq!(merge_slice(val), MySlice { start: 0, len: 0, end: 0 });
}

#[test]
fn merge_slice_of_one_byte() {
    let val: &[u8] = &[7];
    assert_eq!(merge_slice(val), MySlice { start: 0, len: 1, end: 1 });
}

#[test]
fn merge_slice_ignores_the_byte_values() {
    let a: &[u8] = &[1, 1, 1, 1];
    let b: &[u8] = &[9, 200, 3, 0];
    assert_eq!(merge_slice(a), merge_slice(b));
    assert_eq!(merge_slice(a).len, 4);
}
