//! A minimum binary heap over `i64` values, kept in a vector with
//! one-based indexing: slot 0 holds a placeholder, and the parent of
//! slot `i` is slot `i / 2`. The view is the multiset of held values;
//! `pop` is proved to yield a smallest one.

use vstd::prelude::*;
use vstd::multiset::Multiset;
use vstd::seq_lib::group_to_multiset_ensures;
use vstd::seq_lib::to_multiset_update;
use vstd::multiset::group_multiset_axioms;

verus! {

pub struct BinaryHeap {
    size: usize,
    data: Vec<i64>,
}

/// The heap shape: every slot except the first is at least its parent.
spec fn heap_shape(s: Seq<i64>, size: int) -> bool {
    forall|i: int| 2 <= i <= size ==> s[i / 2] <= #[trigger] s[i]
}

/// The heap shape everywhere except on the edge from `j` up to its
/// parent, with `j`'s children still bounded by `j`'s parent: what
/// holds while a freshly pushed value moves up.
spec fn shape_up_except(s: Seq<i64>, size: int, j: int) -> bool {
    &&& forall|i: int| 2 <= i <= size && i != j ==> s[i / 2] <= #[trigger] s[i]
    &&& forall|i: int|
        2 <= i <= size && i / 2 == j && 2 <= j ==> s[j / 2] <= #[trigger] s[i]
}

/// The heap shape everywhere except on the edges from `j` down to its
/// children, with `j`'s children still bounded by `j`'s parent: what
/// holds while a value moved to the root sinks down.
spec fn shape_down_except(s: Seq<i64>, size: int, j: int) -> bool {
    &&& forall|i: int| 2 <= i <= size && i / 2 != j ==> s[i / 2] <= #[trigger] s[i]
    &&& forall|i: int|
        2 <= i <= size && i / 2 == j && 2 <= j ==> s[j / 2] <= #[trigger] s[i]
}

impl BinaryHeap {
    /// The values the heap holds, as a multiset.
    pub closed spec fn mset(self) -> Multiset<i64> {
        self.data@.skip(1).to_multiset()
    }

    /// How many values the heap holds.
    pub closed spec fn len(self) -> nat {
        self.size as nat
    }

    /// The backing vector has the placeholder plus one slot per value,
    /// and the heap shape holds throughout.
    pub closed spec fn well_formed(self) -> bool {
        &&& self.data@.len() == self.size + 1
        &&& heap_shape(self.data@, self.size as int)
    }

    pub fn new() -> (r: Self)
        ensures
            r.well_formed(),
            r.mset() == Multiset::<i64>::empty(),
            r.len() == 0,
    {
        let mut data: Vec<i64> = Vec::new();
        data.push(0);
        proof {
            broadcast use group_to_multiset_ensures;

            assert(data@.skip(1) =~= Seq::<i64>::empty());
        }
        BinaryHeap { size: 0, data }
    }

    pub fn is_empty(&self) -> (r: bool)
        ensures
            r == (self.len() == 0),
    {
        self.size == 0
    }

    /// Any slot is at least the root: the root holds a smallest value.
    proof fn lemma_root_is_min(s: Seq<i64>, size: int, i: int)
        requires
            heap_shape(s, size),
            1 <= i <= size,
        ensures
            s[1] <= s[i],
        decreases i,
    {
        if i >= 2 {
            Self::lemma_root_is_min(s, size, i / 2);
        }
    }

    /// Swapping two slots leaves the multiset of values unchanged.
    proof fn lemma_swap_keeps_multiset(s: Seq<i64>, i: int, j: int)
        requires
            0 <= i < s.len(),
            0 <= j < s.len(),
        ensures
            s.update(i, s[j]).update(j, s[i]).to_multiset() == s.to_multiset(),
    {
        broadcast use to_multiset_update;
        broadcast use group_multiset_axioms;
        broadcast use group_to_multiset_ensures;

        assert(s.contains(s[i]));
        assert(s.update(i, s[j])[j] == (if i == j { s[j] } else { s[j] }));
        assert(s.update(i, s[j]).update(j, s[i]).to_multiset() =~= s.to_multiset());
    }

    fn move_up(&mut self, index: usize)
        requires
            1 <= index <= old(self).size,
            old(self).data@.len() == old(self).size + 1,
            shape_up_except(old(self).data@, old(self).size as int, index as int),
        ensures
            final(self).well_formed(),
            final(self).size == old(self).size,
            final(self).data@.skip(1).to_multiset() == old(self).data@.skip(1).to_multiset(),
    {
        let mut index = index;
        loop
            invariant
                1 <= index <= self.size,
                self.data@.len() == self.size + 1,
                self.size == old(self).size,
                shape_up_except(self.data@, self.size as int, index as int),
                self.data@.skip(1).to_multiset() == old(self).data@.skip(1).to_multiset(),
            ensures
                self.data@.len() == self.size + 1,
                self.size == old(self).size,
                heap_shape(self.data@, self.size as int),
                self.data@.skip(1).to_multiset() == old(self).data@.skip(1).to_multiset(),
            decreases index,
        {
            let parent_index = index / 2;
            if parent_index == 0 {
                proof {
                    assert(index == 1);
                }
                break ;
            }
            if self.data[index] < self.data[parent_index] {
                let ghost before = self.data@;
                let a = self.data[index];
                let b = self.data[parent_index];
                self.data.set(index, b);
                self.data.set(parent_index, a);
                proof {
                    let sk = before.skip(1);
                    assert(sk[index - 1] == a && sk[parent_index - 1] == b);
                    assert(self.data@.skip(1) =~= sk.update(index - 1, b).update(
                        parent_index - 1,
                        a,
                    ));
                    Self::lemma_swap_keeps_multiset(sk, index - 1, parent_index - 1);
                }
            }
            index = parent_index;
        }
    }

    /// Adds `val` to the held values.
    pub fn push(&mut self, val: i64)
        requires
            old(self).well_formed(),
            old(self).len() < usize::MAX - 1,
        ensures
            final(self).well_formed(),
            final(self).mset() == old(self).mset().insert(val),
            final(self).len() == old(self).len() + 1,
    {
        self.size = self.size + 1;
        self.data.push(val);
        proof {
            broadcast use group_to_multiset_ensures;

            assert(self.data@.skip(1) =~= old(self).data@.skip(1).push(val));
        }
        self.move_up(self.size);
    }

    #[verifier::rlimit(100)]
    fn move_down(&mut self, index: usize)
        requires
            1 <= index <= old(self).size,
            old(self).data@.len() == old(self).size + 1,
            shape_down_except(old(self).data@, old(self).size as int, index as int),
        ensures
            final(self).well_formed(),
            final(self).size == old(self).size,
            final(self).data@.skip(1).to_multiset() == old(self).data@.skip(1).to_multiset(),
    {
        let mut index = index;
        loop
            invariant
                1 <= index <= self.size,
                self.data@.len() == self.size + 1,
                self.size == old(self).size,
                shape_down_except(self.data@, self.size as int, index as int),
                self.data@.skip(1).to_multiset() == old(self).data@.skip(1).to_multiset(),
            ensures
                self.data@.len() == self.size + 1,
                self.size == old(self).size,
                heap_shape(self.data@, self.size as int),
                self.data@.skip(1).to_multiset() == old(self).data@.skip(1).to_multiset(),
            decreases self.size - index,
        {
            if index > self.size / 2 {
                proof {
                    assert forall|i: int|
                        2 <= i <= self.size as int implies self.data@[i / 2] <= #[trigger] self
                        .data@[i] by {
                        assert(i / 2 != index as int);
                    }
                }
                break ;
            }
            let left_index = index * 2;
            let right_index = index * 2 + 1;
            let min_index = if right_index > self.size {
                left_index
            } else {
                if self.data[left_index] < self.data[right_index] {
                    left_index
                } else {
                    right_index
                }
            };
            if self.data[index] > self.data[min_index] {
                let ghost before = self.data@;
                let a = self.data[index];
                let b = self.data[min_index];
                self.data.set(index, b);
                self.data.set(min_index, a);
                proof {
                    let sk = before.skip(1);
                    assert(sk[index - 1] == a && sk[min_index - 1] == b);
                    assert(self.data@.skip(1) =~= sk.update(index - 1, b).update(
                        min_index - 1,
                        a,
                    ));
                    Self::lemma_swap_keeps_multiset(sk, index - 1, min_index - 1);
                }
            }
            index = min_index;
        }
    }

    /// Takes a smallest held value out, or nothing when empty.
    pub fn pop(&mut self) -> (r: Option<i64>)
        requires
            old(self).well_formed(),
        ensures
            final(self).well_formed(),
            old(self).len() == 0 ==> r is None && *final(self) == *old(self),
            old(self).len() > 0 ==> match r {
                Some(m) => {
                    &&& old(self).mset().contains(m)
                    &&& forall|x: i64| old(self).mset().contains(x) ==> m <= x
                    &&& final(self).mset() == old(self).mset().remove(m)
                    &&& final(self).len() == old(self).len() - 1
                },
                None => false,
            },
    {
        proof {
            broadcast use group_to_multiset_ensures;
        }
        if self.size == 0 {
            None
        } else if self.size == 1 {
            self.size = 0;
            let data = self.data.pop();
            proof {
                assert(old(self).data@.skip(1) =~= Seq::<i64>::empty().push(old(self).data@[1]));
                assert(self.data@.skip(1) =~= Seq::<i64>::empty());
                assert(old(self).mset().remove(old(self).data@[1]) =~= self.mset());
            }
            data
        } else {
            let size = self.size;
            self.size = self.size - 1;
            let ghost before = self.data@;
            let a = self.data[1];
            let b = self.data[size];
            self.data.set(1, b);
            self.data.set(size, a);
            let data = self.data.pop();
            proof {
                broadcast use to_multiset_update;
                broadcast use group_multiset_axioms;

                let swapped = before.update(1, b).update(size as int, a);
                assert(self.data@.skip(1) =~= swapped.skip(1).drop_last());
                assert(swapped.skip(1).drop_last() =~= before.skip(1).update(0, b).drop_last());
                broadcast use group_to_multiset_ensures;

                let t = before.skip(1).update(0, b);
                assert(t.drop_last() =~= t.remove(t.len() - 1));
                assert(t.remove(t.len() - 1).to_multiset() == t.to_multiset().remove(
                    t[t.len() - 1],
                ));
                assert(t.drop_last().to_multiset() =~= t.to_multiset().remove(t.last()));
                assert(t.to_multiset() =~= before.skip(1).to_multiset().insert(b).remove(
                    before.skip(1)[0],
                ));
                assert(t.last() == b);
                assert(before.skip(1)[0] == a);
                assert(self.mset() =~= old(self).mset().remove(a));
                assert forall|x: i64| old(self).mset().contains(x) implies a <= x by {
                    let idx = choose|idx: int|
                        0 <= idx < before.skip(1).len() && before.skip(1)[idx] == x;
                    Self::lemma_root_is_min(before, old(self).size as int, idx + 1);
                }
                assert(shape_down_except(self.data@, self.size as int, 1));
            }
            self.move_down(1);
            data
        }
    }
}

} // verus!
