use fress::memory::Unit;
use fress::vector::conj::{conj, create_path, path_of_height};
use fress::vector::guide::{empty, Guide};
use fress::vector::{digit_count, nth, size, tail_count, tailoff, trailing_zero_digit_count};
use std::rc::Rc;

fn word(u: Unit) -> u64 {
    match u {
        Unit::Word(w) => w,
        Unit::Seg(_) => panic!("expected a word"),
    }
}

fn build(n: u64) -> Rc<Guide> {
    let mut v = empty();
    for i in 0..n {
        v = conj(v, Unit::Word(i * 3 + 1));
    }
    v
}

fn expect_elements(v: &Guide, n: u64) {
    assert_eq!(v.count as u64, n);
    for i in 0..n {
        assert_eq!(word(nth(v, i as u32)), i * 3 + 1, "element {}", i);
    }
}

#[test]
fn empty_vector_has_no_elements() {
    let v = empty();
    assert_eq!(v.count, 0);
    assert_eq!(v.is_compact_bit, 1);
}

#[test]
fn conj_appends_in_the_root() {
    let v = build(5);
    expect_elements(&v, 5);
    let v = build(16);
    expect_elements(&v, 16);
    assert_eq!(v.is_compact_bit, 0);
}

#[test]
fn conj_starts_a_tail_after_sixteen() {
    let v = build(17);
    expect_elements(&v, 17);
    let v = build(32);
    expect_elements(&v, 32);
}

#[test]
fn conj_grows_the_tree_a_level() {
    // 32 -> 33 moves the first full tail into a tree of height 2
    let v = build(33);
    expect_elements(&v, 33);
    // 272 -> 273 makes the tree three levels high
    let v = build(273);
    expect_elements(&v, 273);
}

#[test]
fn conj_fills_root_slots_and_children() {
    let v = build(49);
    expect_elements(&v, 49);
    let v = build(289);
    expect_elements(&v, 289);
    let v = build(600);
    expect_elements(&v, 600);
}

#[test]
fn conj_handles_four_levels() {
    let v = build(4200);
    expect_elements(&v, 4200);
}

#[test]
fn conj_leaves_shared_vectors_alone() {
    let mut v = build(20);
    let mut kept: Vec<(Rc<Guide>, u64)> = Vec::new();
    let mut n: u64 = 20;
    while n < 700 {
        kept.push((v.clone(), n));
        v = conj(v, Unit::Word(n * 3 + 1));
        n += 1;
        if n % 37 == 0 {
            // two vectors grow from one shared parent
            let other = conj(v.clone(), Unit::Word(99));
            assert_eq!(word(nth(&other, n as u32)), 99);
        }
    }
    expect_elements(&v, 700);
    for (old, m) in kept.iter() {
        expect_elements(old, *m);
    }
}

#[test]
fn helpers_compute_digits() {
    assert_eq!(digit_count(0), 0);
    assert_eq!(digit_count(15), 1);
    assert_eq!(digit_count(16), 2);
    assert_eq!(digit_count(0xFFFF_FFFF), 8);
    assert_eq!(trailing_zero_digit_count(0x1200), 2);
    assert_eq!(trailing_zero_digit_count(1), 0);
    assert_eq!(tailoff(17), 16);
    assert_eq!(tailoff(32), 16);
    assert_eq!(tailoff(33), 32);
    assert_eq!(tail_count(33), 1);
    assert_eq!(tail_count(32), 16);
    assert_eq!(size(1), 4);
    assert_eq!(size(4), 8);
    assert_eq!(size(9), 16);
}

fn seg_len(u: &Unit) -> usize {
    match u {
        Unit::Seg(s) => s.units.len(),
        Unit::Word(_) => panic!("expected a segment"),
    }
}

#[test]
fn conj_sizes_headers_as_it_grows() {
    // an untailed header grows to 4, 8, then 16 root slots and a tail slot
    assert_eq!(build(4).segment.units.len(), 4);
    assert_eq!(build(5).segment.units.len(), 8);
    let v = build(8);
    assert_eq!((v.segment.units.len(), v.is_compact_bit), (8, 1));
    let v = build(9);
    assert_eq!((v.segment.units.len(), v.is_compact_bit), (17, 0));
    // the 17th element starts a new tail of 16 units; the header stays
    let v = build(17);
    assert_eq!(v.segment.units.len(), 17);
    assert_eq!(seg_len(&v.segment.units[0]), 16);
    // a full tree of 256 grows a level: a header of a tail slot and 4 root
    // slots, the old root in the first, the old tail one level up in the second
    let v = build(273);
    assert_eq!(v.segment.units.len(), 5);
    assert_eq!(seg_len(&v.segment.units[1]), 16);
    assert_eq!(seg_len(&v.segment.units[2]), 4);
    assert!(matches!(v.segment.units[3], Unit::Word(0)));
    // root slots are taken in place while the header has room, then it regrows
    assert_eq!(build(80).segment.units.len(), 5);
    assert_eq!(build(81).segment.units.len(), 8);
}

#[test]
fn path_of_height_raises_any_unit() {
    assert!(matches!(path_of_height(0, Unit::Word(7)), Unit::Word(7)));
    let r = path_of_height(2, Unit::Word(7));
    match r {
        Unit::Seg(s) => {
            assert_eq!(s.units.len(), 4);
            assert!(matches!(s.units[1], Unit::Word(0)));
            match &s.units[0] {
                Unit::Seg(t) => {
                    assert_eq!(t.units.len(), 4);
                    assert!(matches!(t.units[0], Unit::Word(7)));
                }
                Unit::Word(_) => panic!("expected a segment"),
            }
        }
        Unit::Word(_) => panic!("expected a segment"),
    }
}

#[test]
fn create_path_hangs_the_unit_at_the_end_of_the_path() {
    // one level: slot 5 of a node of height 1 (a path length of 0 walks one level too)
    let mut units: Vec<Unit> = (0..16).map(|_| Unit::Word(1)).collect();
    create_path(&mut units, 0, 5, 1, 0, Unit::Word(42));
    assert!(matches!(units[5], Unit::Word(42)));
    assert!(matches!(units[4], Unit::Word(1)));
    // two levels: slot 1, then slot 2 of a child too short for it, which grows to 4
    let child = fress::memory::Segment { units: vec![Unit::Word(3)] };
    let mut units: Vec<Unit> = vec![Unit::Word(9), Unit::Seg(Rc::new(child))];
    create_path(&mut units, 0, 0x12, 2, 2, Unit::Word(42));
    assert!(matches!(units[0], Unit::Word(9)));
    match &units[1] {
        Unit::Seg(s) => {
            assert_eq!(s.units.len(), 4);
            assert!(matches!(s.units[0], Unit::Word(3)));
            assert!(matches!(s.units[2], Unit::Word(42)));
        }
        Unit::Word(_) => panic!("expected a segment"),
    }
}
