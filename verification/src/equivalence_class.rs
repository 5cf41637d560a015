//! Disjoint-set forest over cluster labels, without path compression.
//!
//! Labels are handed out in increasing order starting at 1.  Merging two
//! classes always makes the larger root point to the smaller one, so the
//! representative of a class is its smallest label and every parent pointer
//! points downwards.

use vstd::prelude::*;

verus! {

/// Representative reached from `label` by following parent pointers in `slots`.
///
/// Slot 0 is not a label; a label whose slot does not point strictly downwards
/// is its own representative.
pub open spec fn root_of(slots: Seq<usize>, label: int) -> int
    decreases label,
{
    if 1 <= label < slots.len() && 1 <= slots[label] < label {
        root_of(slots, slots[label] as int)
    } else {
        label
    }
}

/// Number of labels in `1..=upto` that are their own parent in `slots`.
pub open spec fn count_roots(slots: Seq<usize>, upto: int) -> nat
    decreases upto,
{
    if upto < 1 {
        0
    } else {
        count_roots(slots, upto - 1) + if slots[upto] == upto {
            1nat
        } else {
            0nat
        }
    }
}

/// Slot 0 counts the labels created so far, and every label points to
/// itself or downwards.
pub open spec fn forest_wf(slots: Seq<usize>) -> bool {
    &&& slots.len() >= 1
    &&& slots[0] < slots.len()
    &&& forall|i: int| 1 <= i < slots.len() ==> 1 <= #[trigger] slots[i] <= i
}

/// The labels not yet created point to themselves: none of them has been
/// merged into another class.
pub open spec fn forest_tidy(slots: Seq<usize>) -> bool {
    forall|i: int| slots[0] < i < slots.len() ==> #[trigger] slots[i] == i
}

/// The representative of a label is a label no larger than it, and is its own
/// parent.
pub proof fn lemma_root_of_is_root(slots: Seq<usize>, label: int)
    requires
        forest_wf(slots),
        1 <= label < slots.len(),
    ensures
        1 <= root_of(slots, label) <= label,
        slots[root_of(slots, label)] == root_of(slots, label),
        root_of(slots, root_of(slots, label)) == root_of(slots, label),
    decreases label,
{
    if 1 <= slots[label] < label {
        lemma_root_of_is_root(slots, slots[label] as int);
    }
}

/// Pointing the root `from` at the smaller root `to` moves exactly the class
/// of `from` under `to` and leaves every other representative as it was.
pub proof fn lemma_root_of_after_link(slots: Seq<usize>, from: int, to: int, label: int)
    requires
        forest_wf(slots),
        1 <= to < from < slots.len(),
        slots[from] == from,
        slots[to] == to,
        1 <= label < slots.len(),
    ensures
        root_of(slots.update(from, to as usize), label) == if root_of(slots, label) == from {
            to
        } else {
            root_of(slots, label)
        },
    decreases label,
{
    let linked = slots.update(from, to as usize);
    if label == from {
        assert(root_of(linked, to) == to);
    } else if 1 <= slots[label] < label {
        lemma_root_of_after_link(slots, from, to, slots[label] as int);
    }
}

/// Pointing the root `from` at a smaller label removes exactly one root from
/// every range that contains `from`, and none from the others.
pub proof fn lemma_count_roots_after_link(slots: Seq<usize>, from: int, to: int, upto: int)
    requires
        1 <= to < from < slots.len(),
        slots[from] == from,
        upto < slots.len(),
    ensures
        count_roots(slots.update(from, to as usize), upto) + if from <= upto {
            1nat
        } else {
            0nat
        } == count_roots(slots, upto),
    decreases upto,
{
    if upto >= 1 {
        lemma_count_roots_after_link(slots, from, to, upto - 1);
    }
}

/// Counting roots looks only at the labels in `1..=upto`.
pub proof fn lemma_count_roots_local(a: Seq<usize>, b: Seq<usize>, upto: int)
    requires
        forall|i: int| 1 <= i <= upto ==> a[i] == b[i],
    ensures
        count_roots(a, upto) == count_roots(b, upto),
    decreases upto,
{
    if upto >= 1 {
        lemma_count_roots_local(a, b, upto - 1);
    }
}

/// Union-find structure over the labels `1..=capacity`.
///
/// Slot 0 of the backing array counts the labels created so far; slot `i`
/// holds the parent of label `i`.
pub struct EquivalenceClass {
    data: Vec<usize>,
}

impl EquivalenceClass {
    /// The backing array: the creation counter followed by the parent of
    /// each label.
    pub closed spec fn view(&self) -> Seq<usize> {
        self.data@
    }

    /// The structural invariant of the forest.
    pub open spec fn wf(&self) -> bool {
        forest_wf(self@)
    }

    /// No label has been merged before it was created.
    pub open spec fn is_tidy(&self) -> bool {
        forest_tidy(self@)
    }

    /// Largest label the forest can hold.
    pub open spec fn capacity(&self) -> nat {
        (self@.len() - 1) as nat
    }

    /// Number of labels created so far; the created labels are
    /// `1..=num_classes()`.
    pub open spec fn num_classes(&self) -> nat {
        self@[0] as nat
    }

    /// A label of this forest, created or not.
    pub open spec fn is_label(&self, label: int) -> bool {
        1 <= label <= self.capacity()
    }

    /// A label that `create_class` has handed out.
    pub open spec fn is_created(&self, label: int) -> bool {
        1 <= label <= self.num_classes()
    }

    /// Representative of the class of `label`.
    pub open spec fn root(&self, label: int) -> int {
        root_of(self@, label)
    }

    /// Two labels belong to the same class.
    pub open spec fn same_class(&self, a: int, b: int) -> bool {
        self.root(a) == self.root(b)
    }

    /// Number of distinct classes among the created labels.
    pub open spec fn class_count(&self) -> nat {
        count_roots(self@, self.num_classes() as int)
    }

    /// No label has been created and every label is its own class.
    pub open spec fn is_fresh(&self) -> bool {
        forall|i: int| 0 <= i < self@.len() ==> #[trigger] self@[i] == i
    }

    /// Creates a forest able to hold the labels `1..=num_spins`.
    pub fn new(num_spins: usize) -> (forest: Self)
        requires
            num_spins < usize::MAX,
        ensures
            forest.wf(),
            forest.is_tidy(),
            forest.capacity() == num_spins,
            forest.is_fresh(),
    {
        let mut data: Vec<usize> = Vec::new();
        let mut k: usize = 0;
        while k <= num_spins
            invariant
                k <= num_spins + 1,
                num_spins < usize::MAX,
                data@.len() == k,
                forall|i: int| 0 <= i < k ==> data@[i] == i,
            decreases num_spins + 1 - k,
        {
            data.push(k);
            k += 1;
        }
        Self { data }
    }

    /// Forgets every class: afterwards the forest equals a newly created one
    /// of the same capacity.
    #[inline]
    pub fn reset(&mut self)
        requires
            old(self)@.len() >= 1,
        ensures
            final(self).wf(),
            final(self).is_tidy(),
            final(self).capacity() == old(self).capacity(),
            final(self).is_fresh(),
    {
        let n: usize = self.data.len();
        let mut k: usize = 0;
        while k < n
            invariant
                k <= n,
                n == self.data@.len(),
                forall|i: int| 0 <= i < k ==> self.data@[i] == i,
            decreases n - k,
        {
            self.data.set(k, k);
            k += 1;
        }
    }

    /// Creates the next label as a class of its own and returns it.
    ///
    /// A label that was merged into a class before it was created is taken
    /// out of that class again, together with the labels that hang on it.
    pub fn create_class(&mut self) -> (label: usize)
        requires
            old(self).wf(),
            old(self).num_classes() < old(self).capacity(),
        ensures
            final(self).wf(),
            label == old(self).num_classes() + 1,
            final(self).num_classes() == label,
            final(self).capacity() == old(self).capacity(),
            final(self)@ == old(self)@.update(0, label).update(label as int, label),
            final(self).root(label as int) == label,
            final(self).class_count() == old(self).class_count() + 1,
            old(self).is_tidy() ==> final(self).is_tidy(),
            old(self).is_tidy() ==> forall|l: int| final(self).root(l) == old(self).root(l),
    {
        assert(self.data[0] < self.data.len());
        let new_cluster_index: usize = self.data[0] + 1;
        self.data.set(0, new_cluster_index);
        self.data.set(new_cluster_index, new_cluster_index);
        proof {
            lemma_count_roots_local(self@, old(self)@, new_cluster_index - 1);
            if old(self).is_tidy() {
                assert(self@ =~= old(self)@.update(0, new_cluster_index));
                assert forall|l: int| self.root(l) == old(self).root(l) by {
                    Self::lemma_root_ignores_counter(old(self)@, new_cluster_index, l);
                }
            }
        }
        new_cluster_index
    }

    /// Representative of the class of `cluster_result`: the smallest label of
    /// that class.
    pub fn find(&self, mut cluster_result: usize) -> (root: usize)
        requires
            self.wf(),
            self.is_label(cluster_result as int),
        ensures
            root == self.root(cluster_result as int),
            self.is_label(root as int),
            root <= cluster_result,
    {
        let ghost start = cluster_result as int;
        while self.data[cluster_result] != cluster_result
            invariant
                self.wf(),
                1 <= cluster_result <= start,
                start < self@.len(),
                root_of(self@, cluster_result as int) == root_of(self@, start),
            decreases cluster_result,
        {
            cluster_result = self.data[cluster_result];
        }
        cluster_result
    }

    /// Merges the classes of two labels and returns the representative of
    /// the merged class, the smaller of the two representatives.
    pub fn union_get_label(&mut self, cluster_label1: usize, cluster_label2: usize) -> (root:
        usize)
        requires
            old(self).wf(),
            old(self).is_label(cluster_label1 as int),
            old(self).is_label(cluster_label2 as int),
        ensures
            final(self).wf(),
            final(self).capacity() == old(self).capacity(),
            final(self).num_classes() == old(self).num_classes(),
            root == vstd::math::min(
                old(self).root(cluster_label1 as int),
                old(self).root(cluster_label2 as int),
            ),
            forall|l: int|
                old(self).is_label(l) ==> #[trigger] final(self).root(l) == if old(self).same_class(
                    l,
                    cluster_label1 as int,
                ) || old(self).same_class(l, cluster_label2 as int) {
                    root as int
                } else {
                    old(self).root(l)
                },
            final(self).class_count() + if !old(self).same_class(
                cluster_label1 as int,
                cluster_label2 as int,
            ) && old(self).is_created(
                vstd::math::max(
                    old(self).root(cluster_label1 as int),
                    old(self).root(cluster_label2 as int),
                ),
            ) {
                1nat
            } else {
                0nat
            } == old(self).class_count(),
            old(self).is_tidy() && old(self).is_created(cluster_label1 as int) && old(self)
                .is_created(cluster_label2 as int) ==> final(self).is_tidy(),
    {
        let l1: usize = self.find(cluster_label1);
        let l2: usize = self.find(cluster_label2);
        let l_max: usize = if l1 >= l2 { l1 } else { l2 };
        let l_min: usize = if l1 >= l2 { l2 } else { l1 };
        proof {
            lemma_root_of_is_root(self@, cluster_label1 as int);
            lemma_root_of_is_root(self@, cluster_label2 as int);
        }
        if l_min != l_max {
            self.data.set(l_max, l_min);
            proof {
                assert forall|l: int| old(self).is_label(l) implies #[trigger] self.root(l)
                    == if old(self).root(l) == l_max {
                    l_min as int
                } else {
                    old(self).root(l)
                } by {
                    lemma_root_of_after_link(old(self)@, l_max as int, l_min as int, l);
                }
                lemma_count_roots_after_link(
                    old(self)@,
                    l_max as int,
                    l_min as int,
                    old(self).num_classes() as int,
                );
            }
        } else {
            proof {
                assert forall|l: int| old(self).is_label(l) implies #[trigger] self.root(l)
                    == if old(self).same_class(l, cluster_label1 as int) {
                    l_min as int
                } else {
                    old(self).root(l)
                } by {}
            }
        }
        l_min
    }

    /// The creation counter in slot 0 has no influence on representatives.
    proof fn lemma_root_ignores_counter(slots: Seq<usize>, counter: usize, label: int)
        requires
            slots.len() >= 1,
        ensures
            root_of(slots.update(0, counter), label) == root_of(slots, label),
        decreases label,
    {
        if 1 <= label < slots.len() && 1 <= slots[label] < label {
            Self::lemma_root_ignores_counter(slots, counter, slots[label] as int);
        }
    }

    /// Looking up a representative again yields the same label: a
    /// representative is its own parent and its own representative.
    pub proof fn lemma_root_is_fixed_point(&self, label: int)
        requires
            self.wf(),
            self.is_label(label),
        ensures
            self.is_label(self.root(label)),
            self@[self.root(label)] == self.root(label),
            self.root(self.root(label)) == self.root(label),
    {
        lemma_root_of_is_root(self@, label);
    }

    /// The representative of a class is the smallest label in it.
    pub proof fn lemma_root_is_least_in_class(&self, a: int, b: int)
        requires
            self.wf(),
            self.is_label(a),
            self.is_label(b),
            self.same_class(a, b),
        ensures
            self.root(a) <= a,
            self.root(a) <= b,
            self.same_class(self.root(a), a),
    {
        lemma_root_of_is_root(self@, a);
        lemma_root_of_is_root(self@, b);
    }

    /// A forest that was reset cannot be told from a new one of the same
    /// capacity: the two hold the same slots.
    pub proof fn lemma_fresh_forests_agree(&self, other: &Self)
        requires
            self.wf(),
            other.wf(),
            self.is_fresh(),
            other.is_fresh(),
            self.capacity() == other.capacity(),
        ensures
            self@ == other@,
    {
    }

    /// A fresh forest has no created label and no class, and every label is
    /// its own representative.
    pub proof fn lemma_class_count_fresh(&self)
        requires
            self.wf(),
            self.is_fresh(),
        ensures
            self.num_classes() == 0,
            self.class_count() == 0,
            forall|l: int| self.is_label(l) ==> self.root(l) == l,
    {
    }
}

} // verus!
