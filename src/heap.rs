use vstd::prelude::*;
use vstd::multiset::Multiset;
use crate::wire::Wire;

verus! {

broadcast use vstd::seq_lib::group_to_multiset_ensures;

/// Index of the parent of node `i` (for `i > 0`) in an implicit binary tree.
pub open spec fn parent(i: int) -> int {
    (i - 1) / 2
}

/// A binary heap of markers held in a vector: each marker's `val` is no
/// less than its parent's, so the root has the least `val` of all.
#[derive(Debug)]
pub struct WireHeap {
    data: Vec<Wire>,
}

impl View for WireHeap {
    type V = Multiset<Wire>;

    closed spec fn view(&self) -> Multiset<Wire> {
        self.data@.to_multiset()
    }
}

/// The heap order holds on every edge of `s` whose parent is not `skip`.
pub open spec fn ordered_except(s: Seq<Wire>, skip: int) -> bool {
    forall|j: int| 0 < j < s.len() && parent(j) != skip ==> s[parent(j)].val <= #[trigger] s[j].val
}

/// The heap order holds on every edge of `s` whose child is not `skip`.
pub open spec fn ordered_except_child(s: Seq<Wire>, skip: int) -> bool {
    forall|j: int| 0 < j < s.len() && j != skip ==> s[parent(j)].val <= #[trigger] s[j].val
}

/// Swapping two entries keeps what a sequence holds.
proof fn lemma_swap_multiset(s: Seq<Wire>, i: int, j: int)
    requires
        0 <= i < s.len(),
        0 <= j < s.len(),
    ensures
        s.update(i, s[j]).update(j, s[i]).to_multiset() == s.to_multiset(),
{
    broadcast use vstd::seq_lib::to_multiset_update;
    broadcast use vstd::multiset::group_multiset_axioms;

    let t = s.update(i, s[j]);
    assert(t.update(j, s[i]).to_multiset() == t.to_multiset().insert(s[i]).remove(t[j]));
    assert(t.to_multiset() == s.to_multiset().insert(s[j]).remove(s[i]));
    if i != j {
        assert(t[j] == s[j]);
    }
    assert(s.to_multiset().insert(s[j]).remove(s[i]).insert(s[i]).remove(s[j]) =~= s.to_multiset());
}

/// The root of a heap-ordered sequence has the least `val`.
proof fn lemma_root_least(s: Seq<Wire>, i: int)
    requires
        ordered_except(s, -1),
        0 <= i < s.len(),
    ensures
        s[0].val <= s[i].val,
    decreases i,
{
    if i > 0 {
        lemma_root_least(s, parent(i));
    }
}

impl WireHeap {
    /// The heap order holds on every edge.
    pub closed spec fn wf(&self) -> bool {
        ordered_except(self.data@, -1)
    }

    /// The marker at the root, the one that `peek` returns.
    pub closed spec fn top(&self) -> Wire {
        self.data@[0]
    }

    /// An empty heap.
    pub fn new() -> (r: Self)
        ensures
            r.wf(),
            r@ == Multiset::<Wire>::empty(),
    {
        WireHeap { data: Vec::new() }
    }

    /// The number of markers held.
    pub fn len(&self) -> (r: usize)
        ensures
            r == self@.len(),
    {
        self.data.len()
    }

    /// The marker with the least `val`, or `None` when the heap is empty.
    pub fn peek(&self) -> (r: Option<Wire>)
        requires
            self.wf(),
        ensures
            r is None <==> self@.len() == 0,
            r is Some ==> r == Some(self.top()),
            r is Some ==> self@.contains(self.top()),
            r is Some ==> forall|w: Wire| #[trigger] self@.contains(w) ==> self.top().val <= w.val,
    {
        if self.data.len() == 0 {
            None
        } else {
            proof {
                assert(self.data@.contains(self.data@[0]));
                assert forall|w: Wire| #[trigger] self@.contains(w) implies self.top().val <= w.val by {
                    assert(self.data@.contains(w));
                    let i = choose|i: int| 0 <= i < self.data@.len() && self.data@[i] == w;
                    lemma_root_least(self.data@, i);
                }
            }
            Some(self.data[0])
        }
    }

    fn swap(&mut self, i: usize, j: usize)
        requires
            i < old(self).data@.len(),
            j < old(self).data@.len(),
        ensures
            final(self).data@ == old(self).data@.update(i as int, old(self).data@[j as int]).update(
                j as int,
                old(self).data@[i as int],
            ),
            final(self)@ == old(self)@,
    {
        proof {
            lemma_swap_multiset(self.data@, i as int, j as int);
        }
        let a = self.data[i];
        let b = self.data[j];
        self.data.set(i, b);
        self.data.set(j, a);
    }

    /// Adds a marker.
    pub fn push(&mut self, w: Wire)
        requires
            old(self).wf(),
            old(self)@.len() < usize::MAX,
        ensures
            final(self).wf(),
            final(self)@ == old(self)@.insert(w),
    {
        self.data.push(w);
        let mut i: usize = self.data.len() - 1;
        while i > 0
            invariant
                0 <= i < self.data@.len(),
                self@ == old(self)@.insert(w),
                ordered_except_child(self.data@, i as int),
                forall|c: int|
                    0 < c < self.data@.len() && parent(c) == i && i > 0 ==> self.data@[parent(
                        i as int,
                    )].val <= #[trigger] self.data@[c].val,
            ensures
                ordered_except(self.data@, -1),
                self@ == old(self)@.insert(w),
            decreases i,
        {
            let p: usize = (i - 1) / 2;
            if self.data[i] > self.data[p] {
                proof {
                    let s = self.data@;
                    assert(s[i as int].val < s[p as int].val);
                    let t = s.update(p as int, s[i as int]).update(i as int, s[p as int]);
                    assert forall|j: int| 0 < j < t.len() && j != p implies t[parent(j)].val
                        <= #[trigger] t[j].val by {
                        if parent(j) == i {
                            assert(s[parent(i as int)].val <= s[j].val);
                        } else if j == i {
                        } else if j == p {
                        } else if parent(j) == p {
                        }
                    }
                }
                self.swap(p, i);
                i = p;
            } else {
                proof {
                    assert forall|j: int| 0 < j < self.data@.len() implies self.data@[parent(j)].val
                        <= #[trigger] self.data@[j].val by {
                        if j == i {
                            assert(self.data@[p as int].val <= self.data@[i as int].val);
                        }
                    }
                }
                break;
            }
        }
    }

    /// Puts `w` in place of the marker at the root, then restores the heap
    /// order.
    pub fn replace_top(&mut self, w: Wire)
        requires
            old(self).wf(),
            old(self)@.len() > 0,
        ensures
            final(self).wf(),
            final(self)@ == old(self)@.remove(old(self).top()).insert(w),
    {
        proof {
            broadcast use vstd::seq_lib::to_multiset_update;
            broadcast use vstd::multiset::group_multiset_axioms;

            let s = self.data@;
            assert(s.update(0, w).to_multiset() =~= s.to_multiset().remove(s[0]).insert(w));
        }
        self.data.set(0, w);
        let n: usize = self.data.len();
        let mut i: usize = 0;
        while i < n / 2
            invariant
                n == self.data@.len(),
                0 <= i < n,
                self@ == old(self)@.remove(old(self).top()).insert(w),
                ordered_except(self.data@, i as int),
                forall|c: int|
                    0 < c < n && parent(c) == i && i > 0 ==> self.data@[parent(i as int)].val
                        <= #[trigger] self.data@[c].val,
            ensures
                ordered_except(self.data@, -1),
                self@ == old(self)@.remove(old(self).top()).insert(w),
            decreases n - i,
        {
            let l: usize = 2 * i + 1;
            let mut m: usize = l;
            if l + 1 < n && self.data[l + 1] > self.data[l] {
                m = l + 1;
            }
            if self.data[m] > self.data[i] {
                proof {
                    let s = self.data@;
                    let t = s.update(i as int, s[m as int]).update(m as int, s[i as int]);
                    assert(parent(l as int) == i);
                    assert(parent(l + 1) == i);
                    assert forall|j: int| 0 < j < t.len() && parent(j) != m implies t[parent(j)].val
                        <= #[trigger] t[j].val by {
                        if j == i {
                            assert(s[parent(i as int)].val <= s[m as int].val);
                        } else if parent(j) == i {
                        }
                    }
                    assert forall|c: int|
                        0 < c < n && parent(c) == m implies t[parent(m as int)].val
                        <= #[trigger] t[c].val by {
                        assert(s[m as int].val <= s[c].val);
                    }
                }
                self.swap(i, m);
                i = m;
            } else {
                proof {
                    assert(parent(l as int) == i);
                    assert(parent(l + 1) == i);
                    assert forall|j: int| 0 < j < n implies self.data@[parent(j)].val
                        <= #[trigger] self.data@[j].val by {
                        if parent(j) == i {
                            assert(j == l || j == l + 1);
                        }
                    }
                }
                break;
            }
        }
    }
}

} // verus!
