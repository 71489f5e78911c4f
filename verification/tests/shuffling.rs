use xcmp_queue::shuffle::{create_shuffle, pad_seed, shuffle_from};

#[test]
fn seed_is_padded_with_zeros() {
    let seed = pad_seed(&vec![1u8, 2, 3]);
    let mut expected = [0u8; 32];
    expected[0] = 1;
    expected[1] = 2;
    expected[2] = 3;
    assert_eq!(seed, expected);
}

#[test]
fn seed_keeps_first_32_bytes() {
    let hash: Vec<u8> = (0u8..40).collect();
    let seed = pad_seed(&hash);
    assert_eq!(&seed[..], &hash[..32]);
}

#[test]
fn shuffle_swaps_with_any_place() {
    // Draw 0 at place 1 moves the first entry behind; the draw at place 2
    // reaches back to a place already swapped.
    assert_eq!(shuffle_from(&vec![0, 0, 0]), vec![2, 0, 1]);
    assert_eq!(shuffle_from(&vec![1, 1, 1]), vec![1, 2, 0]);
    assert_eq!(shuffle_from(&vec![5, 7]), vec![1, 0]);
    assert_eq!(shuffle_from(&Vec::new()), Vec::<usize>::new());
}

#[test]
fn shuffle_of_zero_hash_follows_the_chacha_stream() {
    // The stream of the all-zero key begins ade0b876, 903df1a0, e56a5d40, 28bd8653.
    assert_eq!(create_shuffle(&Vec::new(), 1), vec![0]);
    assert_eq!(create_shuffle(&Vec::new(), 2), vec![1, 0]);
    assert_eq!(create_shuffle(&Vec::new(), 3), vec![2, 0, 1]);
    assert_eq!(create_shuffle(&vec![0u8; 32], 4), create_shuffle(&Vec::new(), 4));
}

#[test]
fn shuffle_is_the_same_for_the_same_seed() {
    let hash = vec![0xabu8; 32];
    let first = create_shuffle(&hash, 9);
    let second = create_shuffle(&hash, 9);
    assert_eq!(first, second);
    let mut sorted = first.clone();
    sorted.sort();
    assert_eq!(sorted, (0..9).collect::<Vec<usize>>());
}
