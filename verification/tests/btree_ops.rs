use algods::btree_set::BTreeSet;
use algods::btree_set::SetError;
use std::collections::HashSet;

fn collect(set: &BTreeSet) -> Vec<i32> {
    let mut it = set.iter();
    let mut out = Vec::new();
    while let Some(v) = it.next() {
        out.push(v);
    }
    out
}

#[test]
fn test_invalid_configuration() {
    assert_eq!(BTreeSet::new(0).err(), Some(SetError::InvalidConfiguration));
    assert_eq!(BTreeSet::new(1).err(), Some(SetError::InvalidConfiguration));
    assert!(BTreeSet::new(2).is_ok());
    assert!(BTreeSet::new(7).is_ok());
}

#[test]
fn test_insertion_order_scenario() {
    let mut t = BTreeSet::new(2).unwrap();
    for v in [5, 3, 8, 1, 4, 7, 2, 6] {
        assert_eq!(t.insert(v), Ok(true));
    }
    assert_eq!(t.len(), 8);
    assert_eq!(collect(&t), vec![1, 2, 3, 4, 5, 6, 7, 8]);
    assert!(t.check_structure());
}

#[test]
fn test_root_split_scenario() {
    let mut t = BTreeSet::new(2).unwrap();
    for v in [10, 20, 30, 40] {
        assert_eq!(t.insert(v), Ok(true));
    }
    assert_eq!(t.len(), 4);
    assert!(t.check_structure());
    assert_eq!(collect(&t), vec![10, 20, 30, 40]);
}

#[test]
fn test_remove_all_scenario() {
    let mut t = BTreeSet::new(2).unwrap();
    for v in 1..=7 {
        assert_eq!(t.insert(v), Ok(true));
    }
    let mut expected_len = 7;
    for v in 1..=7 {
        assert!(t.remove(v));
        expected_len -= 1;
        assert_eq!(t.len(), expected_len);
        assert!(t.check_structure());
    }
    assert_eq!(t.len(), 0);
    assert!(t.is_empty());
}

#[test]
fn test_remove_from_empty() {
    let mut t = BTreeSet::new(2).unwrap();
    assert!(!t.remove(42));
    assert_eq!(t.len(), 0);
}

#[test]
fn test_repeated_insert_and_remove() {
    let mut t = BTreeSet::new(3).unwrap();
    assert_eq!(t.insert(9), Ok(true));
    assert_eq!(t.insert(9), Ok(false));
    assert!(t.remove(9));
    assert!(!t.remove(9));
    assert!(!t.remove(5));
    assert!(!t.remove(5));
}

#[test]
fn test_clear_resets() {
    let mut t = BTreeSet::new(2).unwrap();
    for v in 0..50 {
        t.insert(v).unwrap();
    }
    t.clear();
    assert_eq!(t.len(), 0);
    for v in 0..50 {
        assert!(!t.contains(v));
    }
    assert!(t.check_structure());
    assert_eq!(t.insert(7), Ok(true));
    assert!(t.contains(7));
}

#[test]
fn test_iteration_ascending() {
    let mut t = BTreeSet::new(2).unwrap();
    for v in [13, -5, 0, 99, 42, -17, 7] {
        t.insert(v).unwrap();
    }
    let items = collect(&t);
    assert_eq!(items.len(), t.len());
    for w in items.windows(2) {
        assert!(w[0] < w[1]);
    }
    assert_eq!(items, vec![-17, -5, 0, 7, 13, 42, 99]);
}

struct XorShift {
    state: u64,
}

impl XorShift {
    fn next(&mut self) -> u64 {
        let mut x = self.state;
        x ^= x << 13;
        x ^= x >> 7;
        x ^= x << 17;
        self.state = x;
        x
    }
}

#[test]
fn test_against_reference_randomly() {
    let mut rng = XorShift { state: 0x9E3779B97F4A7C15 };
    for &degree in &[2usize, 3, 5] {
        let mut t = BTreeSet::new(degree).unwrap();
        let mut reference: HashSet<i32> = HashSet::new();
        for step in 0..10_000u32 {
            let val = (rng.next() % 300) as i32;
            match rng.next() % 3 {
                0 => {
                    let added = t.insert(val).unwrap();
                    assert_eq!(added, reference.insert(val));
                },
                1 => {
                    let removed = t.remove(val);
                    assert_eq!(removed, reference.remove(&val));
                },
                _ => {
                    assert_eq!(t.contains(val), reference.contains(&val));
                },
            }
            assert_eq!(t.len(), reference.len());
            if step % 500 == 0 {
                assert!(t.check_structure());
            }
        }
        assert!(t.check_structure());
        let mut sorted: Vec<i32> = reference.iter().copied().collect();
        sorted.sort();
        assert_eq!(collect(&t), sorted);
    }
}
