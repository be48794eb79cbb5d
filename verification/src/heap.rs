//! An N-arity max-heap over integers.

use vstd::prelude::*;

use crate::seq_util::lemma_swap_multiset;

verus! {

/// The parent index of a non-root position in an `arity`-ary heap.
pub open spec fn parent_of(c: int, arity: int) -> int {
    (c - 1) / arity
}

/// The heap shape: every non-root value is at most its parent's.
pub open spec fn heap_wf(v: Seq<i32>, arity: int) -> bool {
    forall|c: int| 1 <= c < v.len() ==> v[parent_of(c, arity)] >= #[trigger] v[c]
}

/// The shape with one slack edge: the one from `j`'s parent down to
/// `j`; in exchange, `j`'s children are bounded by `j`'s parent.
pub open spec fn heap_wf_up(v: Seq<i32>, arity: int, j: int) -> bool {
    &&& forall|c: int|
        1 <= c < v.len() && c != j ==> v[parent_of(c, arity)] >= #[trigger] v[c]
    &&& j > 0 ==> forall|c: int|
        1 <= c < v.len() && parent_of(c, arity) == j ==> v[parent_of(j, arity)] >= #[trigger] v[c]
}

/// The shape with the edges out of `j` slack; in exchange, `j`'s
/// children are bounded by `j`'s parent.
pub open spec fn heap_wf_down(v: Seq<i32>, arity: int, j: int) -> bool {
    &&& forall|c: int|
        1 <= c < v.len() && parent_of(c, arity) != j ==> v[parent_of(c, arity)] >= #[trigger] v[c]
    &&& j > 0 ==> forall|c: int|
        1 <= c < v.len() && parent_of(c, arity) == j ==> v[parent_of(j, arity)] >= #[trigger] v[c]
}

/// A parent sits strictly below its child.
proof fn lemma_parent_lt(c: int, arity: int)
    requires
        1 <= c,
        1 <= arity,
    ensures
        0 <= parent_of(c, arity) < c,
{
    assert(0 <= (c - 1) / arity <= c - 1) by (nonlinear_arith)
        requires
            1 <= c,
            1 <= arity,
    ;
}

/// In a well-shaped heap the root is a maximum.
pub proof fn lemma_root_max(v: Seq<i32>, arity: int, i: int)
    requires
        heap_wf(v, arity),
        1 <= arity,
        0 <= i < v.len(),
    ensures
        v[0] >= v[i],
    decreases i,
{
    if i > 0 {
        lemma_parent_lt(i, arity);
        lemma_root_max(v, arity, parent_of(i, arity));
    }
}

/// An N-arity max-heap: the largest value sits on top.
#[derive(Debug)]
pub struct Heap {
    data: Vec<i32>,
    arity: usize,
}

impl Heap {
    /// The stored values, in heap order.
    pub closed spec fn view(&self) -> Seq<i32> {
        self.data@
    }

    /// The arity the heap was built with.
    pub closed spec fn spec_arity(&self) -> int {
        self.arity as int
    }

    /// The heap shape holds and the arity is usable.
    pub open spec fn wf(&self) -> bool {
        1 <= self.spec_arity() && heap_wf(self.view(), self.spec_arity())
    }

    /// An empty heap with the given arity.
    pub fn new(arity: usize) -> (r: Heap)
        requires
            1 <= arity,
        ensures
            r.wf(),
            r.view() == Seq::<i32>::empty(),
            r.spec_arity() == arity,
    {
        Heap { data: Vec::new(), arity }
    }

    /// Inserts the new value into the heap.
    pub fn insert(&mut self, value: i32)
        requires
            old(self).wf(),
        ensures
            final(self).wf(),
            final(self).spec_arity() == old(self).spec_arity(),
            final(self).view().to_multiset() == old(self).view().to_multiset().insert(value),
    {
        broadcast use vstd::seq_lib::to_multiset_build;

        let index = self.data.len();
        self.data.push(value);
        proof {
            let v = self.data@;
            let a = self.arity as int;
            assert forall|c: int|
                1 <= c < v.len() && c != index as int implies v[parent_of(c, a)] >= #[trigger] v[c] by {
                lemma_parent_lt(c, a);
                assert(old(self).view()[parent_of(c, a)] >= old(self).view()[c]);
            }
            if index > 0 {
                assert forall|c: int|
                    1 <= c < v.len() && parent_of(c, a) == index as int implies v[parent_of(
                    index as int,
                    a,
                )] >= #[trigger] v[c] by {
                    assert(c * 1 <= c * a) by (nonlinear_arith)
                        requires
                            1 <= a,
                            0 <= c,
                    ;
                    assert((c - 1) / a * a <= c - 1) by (nonlinear_arith)
                        requires
                            1 <= a,
                    ;
                    assert(false);
                }
            }
        }
        self.bubble_up(index);
    }

    /// Pops the highest-priority value.
    pub fn top(&mut self) -> (r: Option<i32>)
        requires
            old(self).wf(),
        ensures
            final(self).wf(),
            final(self).spec_arity() == old(self).spec_arity(),
            old(self).view().len() == 0 ==> r is None && final(self).view() == old(self).view(),
            old(self).view().len() > 0 ==> {
                &&& r == Some(old(self).view()[0])
                &&& forall|i: int|
                    0 <= i < old(self).view().len() ==> r->Some_0 >= #[trigger] old(self).view()[i]
                &&& final(self).view().to_multiset() == old(self).view().to_multiset().remove(
                    old(self).view()[0],
                )
            },
    {
        broadcast use vstd::seq_lib::to_multiset_update;
        broadcast use vstd::seq_lib::to_multiset_remove;
        broadcast use vstd::seq_lib::to_multiset_contains;

        proof {
            if old(self).view().len() > 0 {
                assert forall|i: int| 0 <= i < old(self).view().len() implies old(self).view()[0]
                    >= #[trigger] old(self).view()[i] by {
                    lemma_root_max(old(self).view(), old(self).spec_arity(), i);
                }
            }
        }
        if self.data.len() <= 1 {
            let item = self.data.pop();
            proof {
                broadcast use vstd::seq_lib::to_multiset_build;

                if old(self).view().len() == 1 {
                    assert(self.view() =~= Seq::<i32>::empty());
                    assert(old(self).view() =~= Seq::<i32>::empty().push(old(self).view()[0]));
                    assert(old(self).view().to_multiset() == Seq::<i32>::empty().to_multiset()
                        .insert(old(self).view()[0]));
                    assert(self.view().to_multiset() =~= old(self).view().to_multiset().remove(
                        old(self).view()[0],
                    ));
                }
            }
            item
        } else {
            let tail = self.data.len() - 1;
            let ghost v0 = self.data@;
            let a = self.data[0];
            let b = self.data[tail];
            self.data[0] = b;
            self.data[tail] = a;
            proof {
                lemma_swap_multiset(v0, 0, tail as int);
            }
            let item = self.data.pop();
            proof {
                let v = self.data@;
                let va = self.arity as int;
                assert(v =~= v0.update(0, v0[tail as int]).update(tail as int, v0[0]).drop_last());
                assert(v0.update(0, v0[tail as int]).update(tail as int, v0[0]).drop_last()
                    .to_multiset() == v0.to_multiset().remove(v0[0])) by {
                    let w = v0.update(0, v0[tail as int]).update(tail as int, v0[0]);
                    assert(w.drop_last() =~= w.subrange(0, w.len() - 1));
                    assert(w.to_multiset() == v0.to_multiset());
                    assert(w[w.len() - 1] == v0[0]);
                    assert(w =~= w.drop_last().push(v0[0]));
                    broadcast use vstd::seq_lib::to_multiset_build;

                }
                assert forall|c: int|
                    1 <= c < v.len() && parent_of(c, va) != 0 implies v[parent_of(c, va)] >= #[trigger] v[c] by {
                    lemma_parent_lt(c, va);
                    assert(v0[parent_of(c, va)] >= v0[c]);
                }
            }
            self.push_down(0);
            proof {
                assert(self.view().to_multiset() == old(self).view().to_multiset().remove(
                    old(self).view()[0],
                ));
            }
            Some(item.unwrap())
        }
    }

    /// Replaces the first occurrence of `old_val` with `new_val` and
    /// restores the heap shape; `false` when the values are equal or
    /// the old value is absent.
    #[verifier::rlimit(100)]
    pub fn update(&mut self, old_val: i32, new_val: i32) -> (r: bool)
        requires
            old(self).wf(),
        ensures
            final(self).wf(),
            final(self).spec_arity() == old(self).spec_arity(),
            !r ==> final(self).view() == old(self).view(),
            r ==> old(self).view().contains(old_val) && final(self).view().to_multiset() == old(
                self,
            ).view().to_multiset().insert(new_val).remove(old_val),
    {
        broadcast use vstd::seq_lib::to_multiset_update;
        broadcast use vstd::seq_lib::to_multiset_contains;

        if new_val == old_val {
            return false;
        }
        let n = self.data.len();
        let mut index: usize = 0;
        let mut found = false;
        while index < n && !found
            invariant
                n == self.view().len(),
                index <= n,
                found ==> index < n && self.view()[index as int] == old_val,
                !found ==> forall|j: int| 0 <= j < index ==> self.view()[j] != old_val,
            decreases n - index, if found { 0int } else { 1int },
        {
            if self.data[index] == old_val {
                found = true;
            } else {
                index = index + 1;
            }
        }
        if !found {
            return false;
        }
        let ghost v0 = self.data@;
        self.data[index] = new_val;
        proof {
            assert(v0[index as int] == old_val);
            let v = self.data@;
            let a = self.arity as int;
            assert forall|c: int|
                1 <= c < v.len() && c != index as int && parent_of(c, a) != index as int implies v[
                parent_of(c, a)
            ] >= #[trigger] v[c] by {
                lemma_parent_lt(c, a);
                assert(v0[parent_of(c, a)] >= v0[c]);
            }
        }
        if new_val > old_val {
            proof {
                let v = self.data@;
                let a = self.arity as int;
                assert forall|c: int|
                    1 <= c < v.len() && c != index as int implies v[parent_of(c, a)] >= #[trigger] v[c] by {
                    lemma_parent_lt(c, a);
                    assert(v0[parent_of(c, a)] >= v0[c]);
                    if parent_of(c, a) == index as int {
                        assert(v[parent_of(c, a)] == new_val > old_val == v0[parent_of(c, a)]);
                    }
                }
                if index > 0 {
                    assert forall|c: int|
                        1 <= c < v.len() && parent_of(c, a) == index as int implies v[parent_of(
                        index as int,
                        a,
                    )] >= #[trigger] v[c] by {
                        lemma_parent_lt(index as int, a);
                        assert(v0[parent_of(index as int, a)] >= v0[index as int]);
                        assert(v0[index as int] >= v0[c]);
                    }
                }
            }
            self.bubble_up(index);
        } else {
            proof {
                let v = self.data@;
                let a = self.arity as int;
                assert forall|c: int|
                    1 <= c < v.len() && parent_of(c, a) != index as int implies v[parent_of(c, a)]
                    >= #[trigger] v[c] by {
                    lemma_parent_lt(c, a);
                    assert(v0[parent_of(c, a)] >= v0[c]);
                    if c == index as int {
                        assert(v[c] == new_val < old_val == v0[c]);
                    }
                }
                if index > 0 {
                    assert forall|c: int|
                        1 <= c < v.len() && parent_of(c, a) == index as int implies v[parent_of(
                        index as int,
                        a,
                    )] >= #[trigger] v[c] by {
                        lemma_parent_lt(index as int, a);
                        assert(v0[parent_of(index as int, a)] >= v0[index as int]);
                        assert(v0[index as int] >= v0[c]);
                    }
                }
            }
            self.push_down(index);
        }
        true
    }

    /// Moves the value at `index` up until its parent dominates it.
    fn bubble_up(&mut self, index: usize)
        requires
            1 <= old(self).spec_arity(),
            index < old(self).view().len(),
            heap_wf_up(old(self).view(), old(self).spec_arity(), index as int),
        ensures
            final(self).wf(),
            final(self).spec_arity() == old(self).spec_arity(),
            final(self).view().to_multiset() == old(self).view().to_multiset(),
            final(self).view().len() == old(self).view().len(),
    {
        let mut j = index;
        let mut stop = false;
        while j > 0 && !stop
            invariant
                1 <= self.spec_arity(),
                self.spec_arity() == old(self).spec_arity(),
                j < self.view().len(),
                heap_wf_up(self.view(), self.spec_arity(), j as int),
                stop ==> heap_wf(self.view(), self.spec_arity()),
                self.view().to_multiset() == old(self).view().to_multiset(),
                self.view().len() == old(self).view().len(),
            decreases j, if stop { 0int } else { 1int },
        {
            let p = (j - 1) / self.arity;
            proof {
                lemma_parent_lt(j as int, self.spec_arity());
            }
            if self.data[p] > self.data[j] {
                stop = true;
                proof {
                    let v = self.view();
                    let va = self.spec_arity();
                    assert forall|c: int| 1 <= c < v.len() implies v[parent_of(c, va)]
                        >= #[trigger] v[c] by {
                        if c == j as int {
                            assert(v[parent_of(c, va)] == v[p as int]);
                        }
                    }
                }
            } else {
                let ghost v0 = self.data@;
                let a = self.data[p];
                let b = self.data[j];
                self.data[p] = b;
                self.data[j] = a;
                proof {
                    lemma_swap_multiset(v0, p as int, j as int);
                    let v = self.data@;
                    assert(v =~= v0.update(p as int, v0[j as int]).update(j as int, v0[p as int]));
                    let va = self.spec_arity();
                    assert forall|c: int|
                        1 <= c < v.len() && c != p as int implies v[parent_of(c, va)] >= #[trigger] v[c] by {
                        lemma_parent_lt(c, va);
                        if c == j as int {
                        } else if parent_of(c, va) == p as int {
                            assert(v0[p as int] >= v0[c]);
                        } else if parent_of(c, va) == j as int {
                            assert(v0[parent_of(j as int, va)] >= v0[c]);
                        } else {
                            assert(v0[parent_of(c, va)] >= v0[c]);
                        }
                    }
                    if p > 0 {
                        assert forall|c: int|
                            1 <= c < v.len() && parent_of(c, va) == p as int implies v[parent_of(
                            p as int,
                            va,
                        )] >= #[trigger] v[c] by {
                            lemma_parent_lt(p as int, va);
                            if c == j as int {
                                assert(v0[parent_of(p as int, va)] >= v0[p as int]);
                            } else {
                                assert(v0[p as int] >= v0[c]);
                                assert(v0[parent_of(p as int, va)] >= v0[p as int]);
                            }
                        }
                    }
                }
                j = p;
            }
        }
        proof {
            if !stop {
                let v = self.view();
                let va = self.spec_arity();
                assert forall|c: int| 1 <= c < v.len() implies v[parent_of(c, va)] >= #[trigger] v[
                    c
                ] by {
                    assert(c != j as int);
                }
            }
        }
    }

    /// Moves the value at `index` down until it dominates its children.
    fn push_down(&mut self, index: usize)
        requires
            1 <= old(self).spec_arity(),
            index < old(self).view().len(),
            heap_wf_down(old(self).view(), old(self).spec_arity(), index as int),
        ensures
            final(self).wf(),
            final(self).spec_arity() == old(self).spec_arity(),
            final(self).view().to_multiset() == old(self).view().to_multiset(),
            final(self).view().len() == old(self).view().len(),
    {
        let mut j = index;
        loop
            invariant
                1 <= self.spec_arity(),
                self.spec_arity() == old(self).spec_arity(),
                j < self.view().len(),
                heap_wf_down(self.view(), self.spec_arity(), j as int),
                self.view().to_multiset() == old(self).view().to_multiset(),
                self.view().len() == old(self).view().len(),
            decreases self.view().len() - j,
        {
            let children = match self.children_indices(j) {
                None => {
                    proof {
                        let v = self.view();
                        let va = self.spec_arity();
                        assert forall|c: int| 1 <= c < v.len() implies v[parent_of(c, va)] >= #[trigger] v[c] by {
                            lemma_parent_lt(c, va);
                            if parent_of(c, va) == j as int {
                                assert(j as int * va + 1 <= (c - 1) / va * va + 1);
                                assert((c - 1) / va * va <= c - 1) by (nonlinear_arith)
                                    requires
                                        1 <= va,
                                ;
                                assert(false);
                            }
                        }
                    }
                    return ;
                },
                Some(c) => c,
            };
            let max = self.max_index(children.0, children.1);
            proof {
                assert(parent_of(max as int, self.spec_arity()) == j as int) by (nonlinear_arith)
                    requires
                        j as int * self.spec_arity() + 1 <= max as int <= j as int
                            * self.spec_arity() + self.spec_arity(),
                        1 <= self.spec_arity(),
                ;
            }
            if self.data[j] > self.data[max] {
                proof {
                    let v = self.view();
                    let va = self.spec_arity();
                    assert forall|c: int| 1 <= c < v.len() implies v[parent_of(c, va)] >= #[trigger] v[c] by {
                        lemma_parent_lt(c, va);
                        if parent_of(c, va) == j as int {
                            assert(j as int * va + 1 <= c <= j as int * va + va)
                                by (nonlinear_arith)
                                requires
                                    parent_of(c, va) == j as int,
                                    1 <= c,
                                    1 <= va,
                            ;
                            assert(v[max as int] >= v[c]);
                        }
                    }
                }
                return ;
            }
            let ghost v0 = self.data@;
            let a = self.data[j];
            let b = self.data[max];
            self.data[j] = b;
            self.data[max] = a;
            proof {
                lemma_swap_multiset(v0, j as int, max as int);
                let v = self.data@;
                let va = self.spec_arity();
                assert(v =~= v0.update(j as int, v0[max as int]).update(max as int, v0[j as int]));
                assert forall|c: int|
                    1 <= c < v.len() && parent_of(c, va) != max as int implies v[parent_of(c, va)]
                    >= #[trigger] v[c] by {
                    lemma_parent_lt(c, va);
                    assert(j as int * va + 1 <= c <= j as int * va + va <==> parent_of(c, va)
                        == j as int) by (nonlinear_arith)
                        requires
                            1 <= c,
                            1 <= va,
                    ;
                    if c == max as int {
                    } else if parent_of(c, va) == j as int {
                        assert(v0[max as int] >= v0[c]);
                    } else if c == j as int {
                        if j > 0 {
                            assert(v0[parent_of(j as int, va)] >= v0[max as int]);
                        }
                    } else {
                        assert(v0[parent_of(c, va)] >= v0[c]);
                    }
                }
                if max > 0 {
                    assert forall|c: int|
                        1 <= c < v.len() && parent_of(c, va) == max as int implies v[parent_of(
                        max as int,
                        va,
                    )] >= #[trigger] v[c] by {
                        lemma_parent_lt(max as int, va);
                        assert(v0[max as int] >= v0[c]);
                    }
                }
            }
            j = max;
        }
    }

    /// The child range of `parent`: `None` when it has no children.
    fn children_indices(&self, parent: usize) -> (r: Option<(usize, usize)>)
        requires
            1 <= self.spec_arity(),
            parent < self.view().len(),
        ensures
            r is None ==> parent as int * self.spec_arity() + 1 >= self.view().len(),
            r is Some ==> {
                let (start, end) = r->Some_0;
                &&& start as int == parent as int * self.spec_arity() + 1
                &&& end as int == if parent as int * self.spec_arity() + self.spec_arity() + 1
                    <= self.view().len() {
                    parent as int * self.spec_arity() + self.spec_arity() + 1
                } else {
                    self.view().len() as int
                }
                &&& start < end <= self.view().len()
            },
    {
        let n = self.data.len();
        let start = match parent.checked_mul(self.arity) {
            None => {
                proof {
                    assert(parent as int * self.spec_arity() + 1 >= self.view().len());
                }
                return None;
            },
            Some(s) => s,
        };
        let start = match start.checked_add(1) {
            None => {
                return None;
            },
            Some(s) => s,
        };
        if start >= n {
            return None;
        }
        let end = if self.arity <= n - start {
            start + self.arity
        } else {
            n
        };
        Some((start, end))
    }

    /// The index of a maximum value in `data[start..end]`.
    fn max_index(&self, start: usize, end: usize) -> (r: usize)
        requires
            start < end <= self.view().len(),
        ensures
            start <= r < end,
            forall|c: int| start <= c < end ==> self.view()[r as int] >= #[trigger] self.view()[c],
    {
        let mut best = start;
        let mut c = start + 1;
        while c < end
            invariant
                start <= best < c <= end,
                end <= self.view().len(),
                forall|k: int| start <= k < c ==> self.view()[best as int] >= #[trigger] self.view()[k],
            decreases end - c,
        {
            if self.data[c] > self.data[best] {
                best = c;
            }
            c = c + 1;
        }
        best
    }
}

} // verus!
