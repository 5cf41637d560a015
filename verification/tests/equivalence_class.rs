use swendsen_wang::EquivalenceClass;

/// Union-find by relabelling, slow but obviously right.
struct Reference {
    class: Vec<usize>,
}

impl Reference {
    fn new(n: usize) -> Self {
        Reference { class: (0..=n).collect() }
    }

    fn union(&mut self, a: usize, b: usize) {
        let (ca, cb) = (self.class[a], self.class[b]);
        let keep = ca.min(cb);
        for c in self.class.iter_mut() {
            if *c == ca || *c == cb {
                *c = keep;
            }
        }
    }

    fn count(&self) -> usize {
        (1..self.class.len()).filter(|&i| self.class[i] == i).count()
    }
}

fn next(state: &mut u64) -> usize {
    *state = state.wrapping_mul(6364136223846793005).wrapping_add(1442695040888963407);
    (*state >> 33) as usize
}

#[test]
fn labels_are_minted_from_one() {
    let mut forest = EquivalenceClass::new(4);
    assert_eq!(forest.create_class(), 1);
    assert_eq!(forest.create_class(), 2);
    assert_eq!(forest.create_class(), 3);
    assert_eq!(forest.create_class(), 4);
    assert_eq!(forest.find(3), 3);
}

#[test]
fn union_keeps_the_smaller_root() {
    let mut forest = EquivalenceClass::new(4);
    for _ in 0..4 {
        forest.create_class();
    }
    assert_eq!(forest.union_get_label(4, 2), 2);
    assert_eq!(forest.find(4), 2);
    assert_eq!(forest.union_get_label(3, 4), 2);
    assert_eq!(forest.find(3), 2);
    assert_eq!(forest.find(1), 1);
    assert_eq!(forest.union_get_label(2, 3), 2);
    assert_eq!(forest.union_get_label(1, 3), 1);
    assert_eq!(forest.find(4), 1);
}

#[test]
fn union_of_a_class_with_itself_changes_nothing() {
    let mut forest = EquivalenceClass::new(3);
    for _ in 0..3 {
        forest.create_class();
    }
    assert_eq!(forest.union_get_label(2, 2), 2);
    assert_eq!(forest.find(1), 1);
    assert_eq!(forest.find(2), 2);
    assert_eq!(forest.find(3), 3);
}

#[test]
fn find_is_idempotent_and_fixes_roots() {
    let mut forest = EquivalenceClass::new(6);
    for _ in 0..6 {
        forest.create_class();
    }
    forest.union_get_label(6, 5);
    forest.union_get_label(5, 3);
    forest.union_get_label(2, 4);
    for label in 1..=6 {
        let root = forest.find(label);
        assert_eq!(forest.find(label), root);
        assert_eq!(forest.find(root), root);
        assert!(root <= label);
    }
}

#[test]
fn find_matches_a_reference_after_many_unions() {
    for n in 1..=12usize {
        let mut forest = EquivalenceClass::new(n);
        let mut reference = Reference::new(n);
        for _ in 0..n {
            forest.create_class();
        }
        let mut state = 0x9E3779B97F4A7C15u64 ^ n as u64;
        let mut classes = reference.count();
        assert_eq!(classes, n);
        for _ in 0..3 * n {
            let a = 1 + next(&mut state) % n;
            let b = 1 + next(&mut state) % n;
            let root = forest.union_get_label(a, b);
            reference.union(a, b);
            assert_eq!(root, reference.class[a]);
            for x in 1..=n {
                assert_eq!(forest.find(x), reference.class[x]);
                assert_eq!(forest.find(forest.find(x)), forest.find(x));
            }
            let now = reference.count();
            assert!(now <= classes);
            classes = now;
        }
    }
}

#[test]
fn the_root_is_the_smallest_label_of_its_class() {
    let mut forest = EquivalenceClass::new(5);
    for _ in 0..5 {
        forest.create_class();
    }
    forest.union_get_label(5, 4);
    forest.union_get_label(4, 2);
    assert_eq!(forest.find(5), 2);
    assert_eq!(forest.find(4), 2);
    assert_eq!(forest.find(2), 2);
    assert_eq!(forest.find(3), 3);
}

#[test]
fn reset_forest_equals_a_new_one() {
    let mut forest = EquivalenceClass::new(5);
    for _ in 0..5 {
        forest.create_class();
    }
    forest.union_get_label(1, 5);
    forest.union_get_label(3, 4);
    forest.reset();
    let mut fresh = EquivalenceClass::new(5);
    for label in 1..=5 {
        assert_eq!(forest.find(label), label);
        assert_eq!(fresh.find(label), label);
    }
    for expected in 1..=5 {
        assert_eq!(forest.create_class(), expected);
        assert_eq!(fresh.create_class(), expected);
    }
}

#[test]
fn a_forest_without_labels_can_be_built() {
    let mut forest = EquivalenceClass::new(0);
    forest.reset();
    let mut one = EquivalenceClass::new(1);
    assert_eq!(one.create_class(), 1);
    assert_eq!(one.find(1), 1);
}

#[test]
fn creating_a_label_takes_it_out_of_an_earlier_merge() {
    let mut forest = EquivalenceClass::new(4);
    // Labels can be merged before they are created.
    assert_eq!(forest.union_get_label(4, 2), 2);
    assert_eq!(forest.find(4), 2);
    assert_eq!(forest.find(3), 3);
    for expected in 1..=3 {
        assert_eq!(forest.create_class(), expected);
    }
    assert_eq!(forest.find(4), 2);
    // Creating label 4 makes it a class of its own again.
    assert_eq!(forest.create_class(), 4);
    assert_eq!(forest.find(4), 4);
    assert_eq!(forest.find(2), 2);
}
