use loddy::ring::Ring;

fn contents(r: &Ring<u32>) -> Vec<u32> {
    let mut out = Vec::new();
    let n = r.len();
    let mut i = 0;
    while i < n {
        out.push(*r.get(i));
        i += 1;
    }
    out
}

#[test]
fn test_shift() {
    let mut ring: Ring<u32> = Ring::from_vec(vec![0, 1, 2, 3, 4]);
    assert_eq!(contents(&ring), vec![0, 1, 2, 3, 4]);

    assert_eq!(ring.shift_right(), 4);
    assert_eq!(contents(&ring), vec![0, 0, 1, 2, 3]);

    assert_eq!(ring.shift_left(), 0);
    assert_eq!(ring.shift_left(), 0);
    assert_eq!(ring.shift_left(), 1);
    assert_eq!(contents(&ring), vec![2, 3, 0, 0, 0]);

    ring.rotate_left();
    assert_eq!(contents(&ring), vec![3, 0, 0, 0, 2]);

    ring.shift_right();
    assert_eq!(contents(&ring), vec![0, 3, 0, 0, 0]);
}

#[test]
fn test_rotate() {
    let mut ring: Ring<u32> = Ring::from_vec(vec![0, 1, 2, 3, 4]);
    assert_eq!(contents(&ring), vec![0, 1, 2, 3, 4]);

    ring.rotate_right();
    assert_eq!(contents(&ring), vec![4, 0, 1, 2, 3]);

    ring.rotate_left();
    assert_eq!(contents(&ring), vec![0, 1, 2, 3, 4]);
}

#[test]
fn test_to_array() {
    let mut ring: Ring<u32> = Ring::from_vec(vec![0, 1, 2, 3, 4]);
    ring.rotate_right();
    ring.rotate_right();
    ring.rotate_right();
    assert_eq!(ring.clone().to_array(), vec![2, 3, 4, 0, 1]);

    ring.rotate_left();
    assert_eq!(ring.to_array(), vec![3, 4, 0, 1, 2]);
}

#[test]
fn iteration() {
    let ring: Ring<u32> = Ring::from_vec(vec![0, 1, 2, 3, 4]);
    let mut it = ring.into_iter();
    let mut got = Vec::new();
    while let Some(x) = it.next() {
        got.push(x);
    }
    assert_eq!(got, vec![0, 1, 2, 3, 4]);
    assert_eq!(it.next(), None);
}

#[test]
fn rotation_net_offset() {
    // a run of rotations lands every element at its index minus the net
    // rotation, modulo the length
    let mut ring: Ring<u32> = Ring::from_vec(vec![10, 20, 30, 40, 50]);
    ring.rotate_left();
    ring.rotate_left();
    ring.rotate_right();
    assert_eq!(contents(&ring), vec![20, 30, 40, 50, 10]);
    ring.rotate_right();
    assert_eq!(contents(&ring), vec![10, 20, 30, 40, 50]);
}

#[test]
fn shift_with_installs_filler() {
    // the value shifted in front is read back at index 0, and the evicted
    // value is what the last index held
    let mut ring: Ring<u32> = Ring::from_vec(vec![1, 2, 3]);
    let evicted = ring.shift_right_with(99);
    assert_eq!(evicted, 3);
    assert_eq!(*ring.get(0), 99);
    assert_eq!(contents(&ring), vec![99, 1, 2]);

    let evicted = ring.shift_left_with(7);
    assert_eq!(evicted, 99);
    assert_eq!(contents(&ring), vec![1, 2, 7]);
}

#[test]
fn slices_concatenate_to_logical_order() {
    let mut ring: Ring<u32> = Ring::from_vec(vec![1, 2, 3, 4]);
    ring.rotate_left();
    let (a, b) = ring.as_slices();
    let mut joined: Vec<u32> = a.to_vec();
    joined.extend_from_slice(b);
    assert_eq!(joined, contents(&ring));
    assert!(!a.is_empty());
}

#[test]
fn get_mut_writes_logical_position() {
    let mut ring: Ring<u32> = Ring::from_vec(vec![1, 2, 3]);
    ring.rotate_left();
    *ring.get_mut(0) = 42;
    assert_eq!(contents(&ring), vec![42, 3, 1]);
}

#[test]
fn single_slot_ring() {
    let mut ring: Ring<u32> = Ring::from_vec(vec![8]);
    ring.rotate_left();
    assert_eq!(contents(&ring), vec![8]);
    assert_eq!(ring.shift_right(), 8);
    assert_eq!(contents(&ring), vec![0]);
}
