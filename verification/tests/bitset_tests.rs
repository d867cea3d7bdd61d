use sudoku::bitset::{BitSet, Number};

const ALL: [Number; 9] = [
    Number::N1,
    Number::N2,
    Number::N3,
    Number::N4,
    Number::N5,
    Number::N6,
    Number::N7,
    Number::N8,
    Number::N9,
];

#[test]
fn number_converts_to_its_value() {
    for (i, n) in ALL.iter().enumerate() {
        assert_eq!(u8::from(*n), i as u8 + 1);
    }
}

#[test]
fn to_bits_is_one_shifted_by_value() {
    assert_eq!(Number::N1.to_bits(), 0b10);
    assert_eq!(Number::N5.to_bits(), 0b10_0000);
    assert_eq!(Number::N9.to_bits(), 0b10_0000_0000);
    for a in ALL {
        for b in ALL {
            if u8::from(a) != u8::from(b) {
                assert_eq!(a.to_bits() & b.to_bits(), 0);
            }
        }
    }
}

#[test]
fn new_set_is_empty() {
    let s = BitSet::new();
    for n in ALL {
        assert!(!s.get(n));
    }
    assert!(!s.all_seen());
    let d = BitSet::default();
    for n in ALL {
        assert!(!d.get(n));
    }
}

#[test]
fn set_then_get_and_unset() {
    let mut s = BitSet::new();
    s.set(Number::N3);
    assert!(s.get(Number::N3));
    assert!(!s.get(Number::N4));
    s.set(Number::N3);
    assert!(s.get(Number::N3));
    s.unset(Number::N3);
    assert!(!s.get(Number::N3));
    s.unset(Number::N3);
    assert!(!s.get(Number::N3));
}

#[test]
fn clear_empties_the_set() {
    let mut s = BitSet::new();
    for n in ALL {
        s.set(n);
    }
    s.clear();
    for n in ALL {
        assert!(!s.get(n));
    }
}

#[test]
fn get_count_is_always_zero() {
    let mut s = BitSet::new();
    assert_eq!(s.get_count(), 0);
    s.set(Number::N1);
    assert_eq!(s.get_count(), 0);
    for n in ALL {
        s.set(n);
    }
    assert_eq!(s.get_count(), 0);
}

#[test]
fn all_seen_only_when_full() {
    let mut s = BitSet::new();
    for (i, n) in ALL.iter().enumerate() {
        assert!(!s.all_seen());
        s.set(*n);
        assert_eq!(s.all_seen(), i == 8);
    }
    s.unset(Number::N7);
    assert!(!s.all_seen());
}

#[test]
fn get_next_finds_smallest_missing() {
    let mut s = BitSet::new();
    assert_eq!(s.get_next(), Some(Number::N1));
    s.set(Number::N1);
    s.set(Number::N2);
    s.set(Number::N4);
    assert_eq!(s.get_next(), Some(Number::N3));
    for n in ALL {
        s.set(n);
    }
    assert_eq!(s.get_next(), None);
    s.unset(Number::N9);
    assert_eq!(s.get_next(), Some(Number::N9));
}

#[test]
fn choose_new_picks_an_unseen_digit() {
    let mut rng = rand::rng();
    let mut s = BitSet::new();
    s.set(Number::N2);
    s.set(Number::N5);
    for _ in 0..50 {
        let n = s.choose_new(&mut rng).unwrap();
        assert!(!s.get(n));
    }
    for n in ALL {
        s.set(n);
    }
    assert_eq!(s.choose_new(&mut rng), None);
    s.unset(Number::N6);
    assert_eq!(s.choose_new(&mut rng), Some(Number::N6));
}

#[test]
fn choose_new_eventually_exhausts() {
    let mut rng = rand::rng();
    let mut s = BitSet::new();
    let mut count = 0;
    while let Some(n) = s.choose_new(&mut rng) {
        assert!(!s.get(n));
        s.set(n);
        count += 1;
    }
    assert_eq!(count, 9);
    assert!(s.all_seen());
}

#[test]
fn union_and_intersection() {
    let mut a = BitSet::new();
    let mut b = BitSet::new();
    a.set(Number::N1);
    a.set(Number::N2);
    b.set(Number::N2);
    b.set(Number::N3);
    let u = a | b;
    let i = a & b;
    assert!(u.get(Number::N1) && u.get(Number::N2) && u.get(Number::N3));
    assert!(!u.get(Number::N4));
    assert!(!i.get(Number::N1) && i.get(Number::N2) && !i.get(Number::N3));
}
