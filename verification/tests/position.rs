//! Packed positions.

use crossbeam_queue::position::{index_of, lap_of, one_lap_for};

#[test]
fn one_lap_is_the_smallest_power_of_two_above_the_capacity() {
    assert_eq!(one_lap_for(1), 2);
    assert_eq!(one_lap_for(2), 4);
    assert_eq!(one_lap_for(3), 4);
    assert_eq!(one_lap_for(4), 8);
    assert_eq!(one_lap_for(7), 8);
    assert_eq!(one_lap_for(8), 16);
    assert_eq!(one_lap_for(1000), 1024);
    assert_eq!(one_lap_for(1023), 1024);
    assert_eq!(one_lap_for(1024), 2048);
    assert_eq!(one_lap_for(usize::MAX / 2), usize::MAX / 2 + 1);
    assert_eq!(one_lap_for(usize::MAX / 4), usize::MAX / 4 + 1);
    assert_eq!(one_lap_for(usize::MAX / 4 + 1), usize::MAX / 2 + 1);
}

#[test]
fn a_word_is_its_lap_plus_its_index() {
    // Stride 8: three index bits.
    assert_eq!(index_of(0, 8), 0);
    assert_eq!(lap_of(0, 8), 0);
    assert_eq!(index_of(5, 8), 5);
    assert_eq!(lap_of(5, 8), 0);
    assert_eq!(index_of(8, 8), 0);
    assert_eq!(lap_of(8, 8), 8);
    assert_eq!(index_of(29, 8), 5);
    assert_eq!(lap_of(29, 8), 24);
    assert_eq!(index_of(usize::MAX, 8), 7);
    assert_eq!(lap_of(usize::MAX, 8), usize::MAX - 7);
    for word in [0usize, 1, 63, 64, 65, 127, 1 << 20, usize::MAX - 64, usize::MAX] {
        for stride in [1usize, 2, 64, 1 << 12, usize::MAX / 2 + 1] {
            assert_eq!(index_of(word, stride), word % stride);
            assert_eq!(lap_of(word, stride), word - word % stride);
            assert_eq!(lap_of(word, stride) + index_of(word, stride), word);
        }
    }
}

#[test]
fn the_last_lap_is_followed_by_lap_zero() {
    let stride = 64usize;
    let last = lap_of(usize::MAX, stride);
    assert_eq!(last, usize::MAX - 63);
    assert_eq!(last.wrapping_add(stride), 0);
    // A stride of half the word range leaves two laps.
    let half = usize::MAX / 2 + 1;
    assert_eq!(lap_of(half + 3, half), half);
    assert_eq!(lap_of(half + 3, half).wrapping_add(half), 0);
}
