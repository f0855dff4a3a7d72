use std::collections::HashSet;

use bitgrid::bitset2d::{x_chunk_cover, BitSet2d};

#[test]
fn test_x_range() {
    for (start, end) in [(-128, -64), (-64, 0), (0, 64), (64, 128)] {
        for x in start..end {
            assert_eq!(x_chunk_cover(x), start..end, "x={x:}");
        }
    }
}

#[test]
fn test_insert() {
    let mut sut = BitSet2d::new();
    sut.insert((0, 2));
    assert_eq!(sut.x_range(), 0..64);
    assert_eq!(sut.y_range(), 2..3);
    assert_eq!(sut.bits().as_slice(), &[1]);

    sut.insert((0, 0));
    assert_eq!(sut.x_range(), 0..64);
    assert_eq!(sut.y_range(), 0..3);
    assert_eq!(sut.bits().as_slice(), &[1, 0, 1]);

    sut.insert((80, 0));
    assert_eq!(sut.x_range(), 0..128);
    assert_eq!(sut.y_range(), 0..3);
    assert_eq!(sut.bits().as_slice(), &[1, 1 << (80 - 64), 0, 0, 1, 0]);

    sut.insert((80, 2));
    assert_eq!(sut.x_range(), 0..128);
    assert_eq!(sut.y_range(), 0..3);
    assert_eq!(sut.bits().as_slice(), &[1, 1 << (80 - 64), 0, 0, 1, 1 << (80 - 64)]);
}

#[test]
fn test_contains() {
    let mut sut = BitSet2d::new();
    sut.insert((0, 2));
    assert_eq!(sut.contains((0, 2)), true);
    assert_eq!(sut.contains((0, 0)), false);
    assert_eq!(sut.contains((80, 0)), false);
    assert_eq!(sut.contains((80, 2)), false);

    sut.insert((0, 0));
    assert_eq!(sut.contains((0, 2)), true);
    assert_eq!(sut.contains((0, 0)), true);
    assert_eq!(sut.contains((80, 0)), false);
    assert_eq!(sut.contains((80, 2)), false);

    sut.insert((80, 0));
    assert_eq!(sut.contains((0, 2)), true);
    assert_eq!(sut.contains((0, 0)), true);
    assert_eq!(sut.contains((80, 0)), true);
    assert_eq!(sut.contains((80, 2)), false);

    sut.insert((80, 2));
    assert_eq!(sut.contains((0, 2)), true);
    assert_eq!(sut.contains((0, 0)), true);
    assert_eq!(sut.contains((80, 0)), true);
    assert_eq!(sut.contains((80, 2)), true);
}

#[test]
fn test_remove() {
    let mut sut = BitSet2d::new();
    sut.insert((0, 2));
    assert_eq!(sut.remove((0, 2)), true);
    assert_eq!(sut.remove((0, 2)), false);
}

#[test]
fn empty_set_holds_nothing() {
    let sut = BitSet2d::new();
    assert_eq!(sut.x_range(), 0..0);
    assert_eq!(sut.y_range(), 0..0);
    assert!(sut.bits().is_empty());
    assert!(!sut.contains((0, 0)));
    assert!(!sut.contains((-1, -1)));
}

#[test]
fn negative_x_aligns_down() {
    assert_eq!(x_chunk_cover(-1), -64..0);
    assert_eq!(x_chunk_cover(-64), -64..0);
    assert_eq!(x_chunk_cover(-65), -128..-64);
    assert_eq!(x_chunk_cover(63), 0..64);
    assert_eq!(x_chunk_cover(64), 64..128);
}

#[test]
fn negative_point_round_trip() {
    let mut sut = BitSet2d::new();
    sut.insert((-1, -5));
    assert_eq!(sut.x_range(), -64..0);
    assert_eq!(sut.y_range(), -5..-4);
    assert_eq!(sut.bits().as_slice(), &[1u64 << 63]);
    assert!(sut.contains((-1, -5)));
    assert!(!sut.contains((-2, -5)));
}

#[test]
fn rows_grow_upward() {
    let mut sut = BitSet2d::new();
    sut.insert((0, 2));
    sut.insert((0, 5));
    assert_eq!(sut.y_range(), 2..6);
    assert_eq!(sut.bits().as_slice(), &[1, 0, 0, 1]);
    assert!(sut.contains((0, 2)));
    assert!(sut.contains((0, 5)));
    assert!(!sut.contains((0, 3)));
}

#[test]
fn columns_grow_left_and_right() {
    let mut sut = BitSet2d::new();
    sut.insert((5, 0));
    sut.insert((5, 1));
    sut.insert((-70, 1));
    assert_eq!(sut.x_range(), -128..64);
    assert_eq!(sut.y_range(), 0..2);
    assert_eq!(sut.bits().as_slice(), &[0, 0, 1 << 5, 1 << 58, 0, 1 << 5]);
    sut.insert((200, -1));
    assert_eq!(sut.x_range(), -128..256);
    assert_eq!(sut.y_range(), -1..2);
    assert_eq!(sut.bits().len(), 6 * 3);
    for p in [(5, 0), (5, 1), (-70, 1), (200, -1)] {
        assert!(sut.contains(p), "{p:?}");
    }
    assert!(!sut.contains((-70, 0)));
    assert!(!sut.contains((200, 0)));
}

#[test]
fn insert_twice_is_idempotent() {
    let mut sut = BitSet2d::new();
    sut.insert((7, 7));
    let words = sut.bits().clone();
    sut.insert((7, 7));
    assert_eq!(sut.bits(), &words);
    assert_eq!(sut.x_range(), 0..64);
    assert_eq!(sut.y_range(), 7..8);
}

#[test]
fn queries_outside_box_do_not_grow() {
    let mut sut = BitSet2d::new();
    sut.insert((10, 10));
    assert!(!sut.contains((1000, -1000)));
    assert!(!sut.remove((1000, -1000)));
    assert!(!sut.remove((10, 11)));
    assert_eq!(sut.x_range(), 0..64);
    assert_eq!(sut.y_range(), 10..11);
    assert_eq!(sut.bits().len(), 1);
    assert!(sut.contains((10, 10)));
}

#[test]
fn remove_reports_previous_membership() {
    let mut sut = BitSet2d::new();
    sut.insert((3, 3));
    sut.insert((4, 3));
    assert!(!sut.remove((5, 3)));
    assert!(sut.remove((3, 3)));
    assert!(!sut.contains((3, 3)));
    assert!(sut.contains((4, 3)));
    assert_eq!(sut.x_range(), 0..64);
    assert_eq!(sut.bits().as_slice(), &[1 << 4]);
}

#[test]
fn ranges_never_shrink() {
    let mut sut = BitSet2d::new();
    let points = [(0, 0), (-300, 4), (90, -2), (10, 1), (-1, 0)];
    let mut prev: Option<(std::ops::Range<isize>, std::ops::Range<isize>)> = None;
    for p in points {
        sut.insert(p);
        let (xr, yr) = (sut.x_range(), sut.y_range());
        assert_eq!(xr.len() % 64, 0);
        assert!(xr.len() > 0);
        if let Some((px, py)) = prev {
            assert!(xr.start <= px.start && px.end <= xr.end);
            assert!(yr.start <= py.start && py.end <= yr.end);
        }
        prev = Some((xr, yr));
    }
    assert_eq!(sut.x_range(), -320..128);
    assert_eq!(sut.y_range(), -2..5);
    assert_eq!(sut.bits().len(), 7 * 7);
}

#[test]
fn can_insert_refuses_overflow() {
    let sut = BitSet2d::new();
    assert!(sut.can_insert((0, 0)));
    assert!(sut.can_insert((isize::MIN, isize::MIN)));
    assert!(!sut.can_insert((isize::MAX, 0)));
    assert!(!sut.can_insert((0, isize::MAX)));
    let mut sut = BitSet2d::new();
    sut.insert((isize::MIN, 0));
    assert!(!sut.can_insert((isize::MAX - 100, 0)));
    assert!(!sut.can_insert((0, isize::MAX - 1)));
    assert!(sut.can_insert((isize::MIN + 1000, 3)));
}

/// A small deterministic generator for the comparison below.
fn next(state: &mut u64) -> u64 {
    *state = state
        .wrapping_mul(6364136223846793005)
        .wrapping_add(1442695040888963407);
    *state >> 33
}

#[test]
fn fuzz_matches_reference_set() {
    let mut state: u64 = 0x1234_5678;
    for _ in 0..150 {
        let mut expected = HashSet::<(isize, isize)>::new();
        let mut sut = BitSet2d::new();
        let n = 1 + next(&mut state) % 40;
        for _ in 0..n {
            let p = (
                (next(&mut state) % 121) as isize - 60,
                (next(&mut state) % 121) as isize - 60,
            );
            if next(&mut state) % 4 == 0 {
                assert_eq!(sut.remove(p), expected.remove(&p));
            } else {
                expected.insert(p);
                sut.insert(p);
            }
        }
        for iy in -70..=70 {
            for ix in -70..=70 {
                let p = (ix, iy);
                assert_eq!(sut.contains(p), expected.contains(&p), "set={:?}", expected);
            }
        }
    }
}
