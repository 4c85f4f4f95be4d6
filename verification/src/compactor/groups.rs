//! Disjoint groups of segments, merged pairwise.
use vstd::prelude::*;
use vstd::set_lib::{lemma_int_range, lemma_len_subset, lemma_set_disjoint_lens, set_int_range};

verus! {

/// Disjoint groups over the positions `0..len`, as a union-by-size forest.
///
/// Every position starts as a group of its own; [`SegmentGroups::join`] merges two
/// groups. A group is named by its root, the one member that is its own parent.
pub struct SegmentGroups {
    parents: Vec<usize>,
    sizes: Vec<usize>,
}

/// The root reached from `index` by following parents. A parent's size exceeds its
/// child's, so the walk ends.
spec fn walk(parents: Seq<usize>, sizes: Seq<usize>, index: int) -> int
    decreases parents.len() - sizes[index],
{
    if 0 <= index < parents.len() && parents[index] != index && parents[index] < parents.len()
        && sizes[index] < sizes[parents[index] as int] <= parents.len() {
        walk(parents, sizes, parents[index] as int)
    } else {
        index
    }
}

/// The positions whose walk ends at `root`.
spec fn walkers(parents: Seq<usize>, sizes: Seq<usize>, root: int) -> Set<int> {
    Set::new(|k: int| 0 <= k < parents.len() && walk(parents, sizes, k) == root)
}

/// The shape of the forest: parents in range, sizes growing towards the root.
spec fn is_forest(parents: Seq<usize>, sizes: Seq<usize>) -> bool {
    &&& parents.len() == sizes.len()
    &&& forall|i: int| 0 <= i < parents.len() ==> (#[trigger] parents[i]) < parents.len()
    &&& forall|i: int| 0 <= i < parents.len() ==> 1 <= #[trigger] sizes[i] <= parents.len()
    &&& forall|i: int|
        #![trigger parents[i]]
        0 <= i < parents.len() && parents[i] != i ==> sizes[i] < sizes[parents[i] as int]
}

proof fn lemma_walk(parents: Seq<usize>, sizes: Seq<usize>, index: int)
    requires
        is_forest(parents, sizes),
        0 <= index < parents.len(),
    ensures
        0 <= walk(parents, sizes, index) < parents.len(),
        parents[walk(parents, sizes, index)] == walk(parents, sizes, index),
        walk(parents, sizes, parents[index] as int) == walk(parents, sizes, index),
        sizes[index] <= sizes[walk(parents, sizes, index)],
    decreases parents.len() - sizes[index],
{
    if parents[index] != index {
        lemma_walk(parents, sizes, parents[index] as int);
    }
}

proof fn lemma_walkers_bounded(parents: Seq<usize>, sizes: Seq<usize>, root: int)
    ensures
        walkers(parents, sizes, root).finite(),
        walkers(parents, sizes, root).len() <= parents.len(),
{
    let all = set_int_range(0, parents.len() as int);
    lemma_int_range(0, parents.len() as int);
    assert(walkers(parents, sizes, root).subset_of(all));
    lemma_len_subset(walkers(parents, sizes, root), all);
}

/// Hanging the root `child` under the root `parent` redirects exactly the walks that
/// ended at `child`.
proof fn lemma_walk_after_link(
    parents: Seq<usize>,
    sizes: Seq<usize>,
    child: int,
    parent: usize,
    size: usize,
    index: int,
)
    requires
        is_forest(parents, sizes),
        0 <= child < parents.len(),
        parent < parents.len(),
        child != parent,
        parents[child] == child,
        parents[parent as int] == parent,
        sizes[child] < size <= parents.len(),
        sizes[parent as int] <= size,
        0 <= index < parents.len(),
    ensures
        walk(parents.update(child, parent), sizes.update(parent as int, size), index) == (if walk(
            parents,
            sizes,
            index,
        ) == child {
            parent as int
        } else {
            walk(parents, sizes, index)
        }),
    decreases parents.len() - sizes[index],
{
    let parents2 = parents.update(child, parent);
    let sizes2 = sizes.update(parent as int, size);
    if index == child {
        assert(walk(parents2, sizes2, parent as int) == parent);
        assert(walk(parents2, sizes2, index) == walk(parents2, sizes2, parent as int));
    } else if parents[index] != index {
        lemma_walk_after_link(parents, sizes, child, parent, size, parents[index] as int);
        assert(sizes2[index] < sizes2[parents2[index] as int] <= parents.len());
    }
}

impl SegmentGroups {
    /// Number of positions.
    pub closed spec fn count(&self) -> nat {
        self.parents@.len()
    }

    /// The root of the group that holds `index`.
    pub closed spec fn root_of(&self, index: int) -> int {
        walk(self.parents@, self.sizes@, index)
    }

    /// The members of the group that holds `index`.
    pub open spec fn members(&self, index: int) -> Set<int> {
        Set::new(|k: int| 0 <= k < self.count() && self.root_of(k) == self.root_of(index))
    }

    /// Every root knows how many members its group has.
    pub closed spec fn wf(&self) -> bool {
        &&& is_forest(self.parents@, self.sizes@)
        &&& forall|r: int|
            #![trigger self.sizes@[r]]
            0 <= r < self.parents@.len() && self.parents@[r] == r ==> self.sizes@[r] == walkers(
                self.parents@,
                self.sizes@,
                r,
            ).len()
    }

    /// One group for each of the positions `0..len`.
    pub fn new(len: usize) -> (groups: Self)
        ensures
            groups.wf(),
            groups.count() == len,
            forall|i: int| 0 <= i < len ==> #[trigger] groups.root_of(i) == i,
    {
        let mut parents: Vec<usize> = Vec::new();
        let mut sizes: Vec<usize> = Vec::new();
        let mut index: usize = 0;
        while index < len
            invariant
                index <= len,
                parents@.len() == index,
                sizes@.len() == index,
                forall|i: int| 0 <= i < index ==> #[trigger] parents@[i] == i,
                forall|i: int| 0 <= i < index ==> #[trigger] sizes@[i] == 1,
            decreases len - index,
        {
            parents.push(index);
            sizes.push(1);
            index = index + 1;
        }
        let groups = SegmentGroups { parents, sizes };
        proof {
            assert forall|r: int| 0 <= r < len implies #[trigger] groups.sizes@[r] == walkers(
                groups.parents@,
                groups.sizes@,
                r,
            ).len() by {
                assert(walkers(groups.parents@, groups.sizes@, r) =~= Set::<int>::empty().insert(
                    r,
                ));
            }
        }
        groups
    }

    /// The root of the group that holds `index`.
    pub fn root(&self, index: usize) -> (root: usize)
        requires
            self.wf(),
            index < self.count(),
        ensures
            root == self.root_of(index as int),
            root < self.count(),
            self.root_of(root as int) == root,
    {
        let mut at: usize = index;
        while self.parents[at] != at
            invariant
                self.wf(),
                index < self.parents@.len(),
                at < self.parents@.len(),
                walk(self.parents@, self.sizes@, at as int) == walk(
                    self.parents@,
                    self.sizes@,
                    index as int,
                ),
            decreases self.parents@.len() - self.sizes@[at as int],
        {
            proof {
                lemma_walk(self.parents@, self.sizes@, at as int);
            }
            at = self.parents[at];
        }
        at
    }

    /// How many members the group that holds `index` has.
    pub fn size_of(&self, index: usize) -> (size: usize)
        requires
            self.wf(),
            index < self.count(),
        ensures
            size == self.members(index as int).len(),
            self.members(index as int).finite(),
    {
        let root = self.root(index);
        proof {
            lemma_walk(self.parents@, self.sizes@, index as int);
            lemma_walkers_bounded(self.parents@, self.sizes@, root as int);
            assert(self.members(index as int) =~= walkers(
                self.parents@,
                self.sizes@,
                root as int,
            ));
        }
        self.sizes[root]
    }

    /// Merges the group of `left` with the group of `right`; every other group stays
    /// as it is. Nothing changes where both are in one group already.
    pub fn join(&mut self, left: usize, right: usize)
        requires
            old(self).wf(),
            left < old(self).count(),
            right < old(self).count(),
        ensures
            final(self).wf(),
            final(self).count() == old(self).count(),
            forall|i: int, j: int|
                #![trigger final(self).root_of(i), final(self).root_of(j)]
                0 <= i < old(self).count() && 0 <= j < old(self).count() ==> ((final(self).root_of(
                    i,
                ) == final(self).root_of(j)) <==> {
                    ||| old(self).root_of(i) == old(self).root_of(j)
                    ||| old(self).root_of(i) == old(self).root_of(left as int) && old(self).root_of(
                        j,
                    ) == old(self).root_of(right as int)
                    ||| old(self).root_of(i) == old(self).root_of(right as int) && old(
                        self,
                    ).root_of(j) == old(self).root_of(left as int)
                }),
            old(self).root_of(left as int) == old(self).root_of(right as int) ==> *final(self)
                == *old(self),
    {
        let left_root = self.root(left);
        let right_root = self.root(right);
        if left_root == right_root {
            return;
        }
        proof {
            lemma_walk(self.parents@, self.sizes@, left as int);
            lemma_walk(self.parents@, self.sizes@, right as int);
        }
        let (parent, child): (usize, usize) = if self.sizes[left_root] >= self.sizes[right_root] {
            (left_root, right_root)
        } else {
            (right_root, left_root)
        };
        let ghost parents = self.parents@;
        let ghost sizes = self.sizes@;
        let ghost ours = walkers(parents, sizes, parent as int);
        let ghost theirs = walkers(parents, sizes, child as int);
        proof {
            lemma_walkers_bounded(parents, sizes, parent as int);
            lemma_walkers_bounded(parents, sizes, child as int);
            assert(ours.disjoint(theirs));
            lemma_set_disjoint_lens(ours, theirs);
            let all = set_int_range(0, parents.len() as int);
            lemma_int_range(0, parents.len() as int);
            assert(ours.union(theirs).subset_of(all));
            lemma_len_subset(ours.union(theirs), all);
            assert(sizes[parent as int] == ours.len());
            assert(sizes[child as int] == theirs.len());
            assert((ours + theirs).len() <= self.parents.len());
        }
        let size: usize = self.sizes[parent] + self.sizes[child];
        self.parents[child] = parent;
        self.sizes[parent] = size;
        proof {
            let parents2 = parents.update(child as int, parent);
            let sizes2 = sizes.update(parent as int, size);
            assert(self.parents@ =~= parents2);
            assert(self.sizes@ =~= sizes2);
            assert forall|i: int| 0 <= i < parents.len() implies #[trigger] walk(
                parents2,
                sizes2,
                i,
            ) == (if walk(parents, sizes, i) == child {
                parent as int
            } else {
                walk(parents, sizes, i)
            }) by {
                lemma_walk_after_link(parents, sizes, child as int, parent, size, i);
            }
            assert forall|r: int|
                0 <= r < parents2.len() && parents2[r] == r implies #[trigger] sizes2[r] == walkers(
                parents2,
                sizes2,
                r,
            ).len() by {
                if r == parent {
                    assert(walkers(parents2, sizes2, r) =~= ours.union(theirs));
                } else {
                    assert(walkers(parents2, sizes2, r) =~= walkers(parents, sizes, r));
                }
            }
        }
    }
}

} // verus!
