//! The slot array behind the constant pool: indices are stable, removal
//! frees a slot for reuse, and unrelated operations do not disturb other
//! indices.

use rlox::util::KeyedArray;

#[test]
fn push_fills_in_index_order() {
    let mut ka: KeyedArray<u32> = KeyedArray::new(3);
    assert_eq!(ka.len(), 3);
    assert_eq!(ka.push(10), 0);
    assert_eq!(ka.push(11), 1);
    assert_eq!(ka.push(12), 2);
    assert_eq!(*ka.index(0), 10);
    assert_eq!(*ka.index(1), 11);
    assert_eq!(*ka.index(2), 12);
    // The preallocated slots are full; the next push grows the array.
    assert_eq!(ka.push(13), 3);
    assert_eq!(ka.len(), 4);
}

#[test]
fn remove_frees_an_index_for_reuse() {
    let mut ka: KeyedArray<u32> = KeyedArray::new(4);
    assert_eq!(ka.push(10), 0);
    assert_eq!(ka.push(11), 1);
    ka.remove(0);
    // The freed index is handed out again; the other binding is untouched.
    assert_eq!(ka.push(20), 0);
    assert_eq!(*ka.index(0), 20);
    assert_eq!(*ka.index(1), 11);
    // Indices are not invalidated by unrelated pushes and removals.
    assert_eq!(ka.push(12), 2);
    assert_eq!(*ka.index(1), 11);
}
