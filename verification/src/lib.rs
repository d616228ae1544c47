//! A fixed-capacity priority queue backed by a binary max-heap.
//!
//! Capacity is a compile-time parameter `N`: the backing store holds exactly
//! `N` slots, allocated at construction and never resized. A separate count
//! tracks how many slots are occupied; slots at or beyond the count hold
//! stale or default values and are never meaningful. `insert` places a new
//! key at the end of the occupied prefix and restores the heap order by
//! bubbling it up; `remove` extracts the maximum, moves the last occupied
//! key to the root, and restores the order by bubbling it down.

use vstd::prelude::*;
use vstd::seq_lib::group_to_multiset_ensures;
use vstd::multiset::group_multiset_axioms;
use vstd::multiset::group_multiset_properties;

verus! {

/// Index of the parent of slot `i` in the implicit binary tree.
pub open spec fn parent_of(i: int) -> int {
    (i - 1) / 2
}

/// The first `n` slots of `s` are heap-ordered: no slot exceeds its parent.
pub open spec fn heap_ordered(s: Seq<u64>, n: int) -> bool {
    forall|k: int| 1 <= k < n ==> #[trigger] s[k] <= s[parent_of(k)]
}

/// Every edge of the first `n` slots whose parent slot is at index `c` or
/// beyond satisfies the heap ordering. `edges_from(s, n, 0)` is the full
/// heap ordering of the first `n` slots.
spec fn edges_from(s: Seq<u64>, n: int, c: int) -> bool {
    forall|k: int| 1 <= k < n && #[trigger] parent_of(k) >= c ==> s[k] <= s[parent_of(k)]
}

/// The exact store produced by bubbling the key at `c` up toward the root:
/// while it strictly exceeds its parent, the two are swapped.
pub open spec fn sift_up(s: Seq<u64>, c: int) -> Seq<u64>
    decreases c,
{
    if 1 <= c < s.len() && s[c] > s[parent_of(c)] {
        sift_up(s.update(c, s[parent_of(c)]).update(parent_of(c), s[c]), parent_of(c))
    } else {
        s
    }
}

/// The exact store produced by bubbling the key at `c` down within the
/// first `n` slots: while a child within bounds strictly exceeds it, it is
/// swapped with the larger child, the left one on a tie.
pub open spec fn sift_down(s: Seq<u64>, n: int, c: int) -> Seq<u64>
    decreases n - c,
{
    let l = 2 * c + 1;
    let r = 2 * c + 2;
    let m1 = if l < n && s[l] > s[c] {
        l
    } else {
        c
    };
    let m = if r < n && s[r] > s[m1] {
        r
    } else {
        m1
    };
    if 0 <= c && m != c {
        sift_down(s.update(c, s[m]).update(m, s[c]), n, m)
    } else {
        s
    }
}

/// The store after heapify has sifted down the internal nodes `n/2 - 1`,
/// `n/2 - 2`, ..., `i`, in that order, starting from `s`.
pub open spec fn heapify_from(s: Seq<u64>, n: int, i: int) -> Seq<u64>
    decreases n - i,
{
    if 0 <= i < n / 2 {
        sift_down(heapify_from(s, n, i + 1), n, i)
    } else {
        s
    }
}

/// The exact store produced by heapifying the first `n` slots in place.
pub open spec fn heapify(s: Seq<u64>, n: int) -> Seq<u64> {
    heapify_from(s, n, 0)
}

/// Slot `k` lies on the bubble-up path of slot `c`: it is `c` itself or one
/// of its ancestors up to the root.
spec fn on_chain(c: int, k: int) -> bool
    decreases c,
{
    k == c || (c >= 1 && on_chain(parent_of(c), k))
}

/// Slot `k` lies in the subtree rooted at slot `root`.
spec fn in_subtree(root: int, k: int) -> bool
    decreases k,
{
    if k == root {
        true
    } else if k <= root || k < 1 {
        false
    } else {
        in_subtree(root, parent_of(k))
    }
}

/// A member of a subtree is its root or lies at or past the root's first
/// child slot.
proof fn lemma_subtree_member_bounds(root: int, k: int)
    requires
        0 <= root,
        in_subtree(root, k),
    ensures
        k == root || k >= 2 * root + 1,
    decreases k,
{
    broadcast use lemma_parent_bounds;

    if k != root {
        lemma_subtree_member_bounds(root, parent_of(k));
    }
}

/// Subtree membership is transitive.
proof fn lemma_subtree_trans(c: int, m: int, k: int)
    requires
        0 <= c <= m,
        in_subtree(c, m),
        in_subtree(m, k),
    ensures
        in_subtree(c, k),
    decreases k,
{
    broadcast use lemma_parent_bounds;

    if k != m {
        lemma_subtree_trans(c, m, parent_of(k));
    }
}

/// Bounds relating a slot to its parent slot: the parent sits strictly
/// below the slot, and a slot is one of its parent's two children.
pub broadcast proof fn lemma_parent_bounds(k: int)
    ensures
        #![trigger parent_of(k)]
        k >= 1 ==> 0 <= parent_of(k) < k && 2 * parent_of(k) + 1 <= k && k <= 2 * parent_of(k) + 2,
{
}

/// The key at the root of a heap-ordered prefix is greater than or equal
/// to every key in that prefix: the root is a maximum.
pub proof fn lemma_root_is_max(s: Seq<u64>, n: int, k: int)
    requires
        heap_ordered(s, n),
        0 <= k < n <= s.len(),
    ensures
        s[k] <= s[0],
    decreases k,
{
    broadcast use lemma_parent_bounds;

    if k > 0 {
        lemma_root_is_max(s, n, parent_of(k));
    }
}

/// Successive extractions come out in descending order: when one heap state
/// follows another by removing one occurrence of the old maximum — as the
/// occupied slots before and after `remove` do — the new maximum is no
/// greater than the old one. Repeatedly extracting therefore yields the
/// keys sorted in descending order.
pub proof fn lemma_extract_descending(s1: Seq<u64>, n1: int, s2: Seq<u64>, n2: int)
    requires
        heap_ordered(s1, n1),
        heap_ordered(s2, n2),
        0 < n1 <= s1.len(),
        0 < n2 <= s2.len(),
        s2.subrange(0, n2).to_multiset() == s1.subrange(0, n1).to_multiset().remove(s1[0]),
    ensures
        s2[0] <= s1[0],
{
    broadcast use group_to_multiset_ensures, group_multiset_axioms;

    let p1 = s1.subrange(0, n1);
    let p2 = s2.subrange(0, n2);
    assert(p2[0] == s2[0]);
    assert(p2.contains(p2[0]));
    assert(p2.to_multiset().count(s2[0]) > 0);
    assert(p1.to_multiset().count(s2[0]) > 0);
    assert(p1.contains(s2[0]));
    let j = choose|j: int| 0 <= j < p1.len() && p1[j] == s2[0];
    assert(s1[j] == s2[0]);
    lemma_root_is_max(s1, n1, j);
}

/// Swapping two slots of the first `n` slots leaves the multiset of keys
/// held by those `n` slots unchanged.
proof fn lemma_swap_preserves_prefix_multiset(s: Seq<u64>, i: int, j: int, n: int)
    requires
        0 <= i < n,
        0 <= j < n,
        n <= s.len(),
    ensures
        s.update(i, s[j]).update(j, s[i]).subrange(0, n).to_multiset() == s.subrange(
            0,
            n,
        ).to_multiset(),
{
    broadcast use group_to_multiset_ensures, group_multiset_axioms, group_multiset_properties;

    let p = s.subrange(0, n);
    let t = s.update(i, s[j]).update(j, s[i]);
    assert(t.subrange(0, n) =~= p.update(i, p[j]).update(j, p[i]));
    if i == j {
        assert(p.update(i, p[j]).update(j, p[i]) =~= p);
    } else {
        let q = p.update(i, p[j]);
        let r = q.update(j, p[i]);
        assert(q.to_multiset() == p.to_multiset().insert(p[j]).remove(p[i]));
        assert(q[j] == p[j]);
        assert(r.to_multiset() == q.to_multiset().insert(p[i]).remove(p[j]));
        assert(p.contains(p[i]));
        assert(p.contains(p[j]));
        assert(p.to_multiset().count(p[i]) > 0);
        assert(p.to_multiset().count(p[j]) > 0);
        assert forall|x: u64| r.to_multiset().count(x) == p.to_multiset().count(x) by {
            assert(p.to_multiset().insert(p[j]).count(x) == p.to_multiset().count(x) + if x == p[j]
                {
                    1int
                } else {
                    0int
                });
        }
        assert(r.to_multiset() =~= p.to_multiset());
    }
}

/// Overwriting the root with the last occupied key and dropping that last
/// slot removes exactly one occurrence of the old root key from the
/// multiset held by the occupied slots.
proof fn lemma_extract_prefix_multiset(s: Seq<u64>, n: int)
    requires
        1 <= n <= s.len(),
    ensures
        s.update(0, s[n - 1]).subrange(0, n - 1).to_multiset() == s.subrange(
            0,
            n,
        ).to_multiset().remove(s[0]),
{
    broadcast use group_to_multiset_ensures, group_multiset_axioms, group_multiset_properties;

    let p = s.subrange(0, n);
    let q = p.update(0, p[n - 1]);
    let tgt = s.update(0, s[n - 1]).subrange(0, n - 1);
    assert(tgt =~= q.subrange(0, n - 1));
    assert(q =~= tgt.push(p[n - 1]));
    assert(q.to_multiset() == p.to_multiset().insert(p[n - 1]).remove(p[0]));
    assert(tgt.push(p[n - 1]).to_multiset() == tgt.to_multiset().insert(p[n - 1]));
    assert(p.contains(p[0]));
    assert(p.to_multiset().count(p[0]) > 0);
    assert forall|x: u64| tgt.to_multiset().count(x) == p.to_multiset().remove(p[0]).count(x) by {
        assert(tgt.to_multiset().insert(p[n - 1]).count(x) == tgt.to_multiset().count(x) + if x
            == p[n - 1] {
            1int
        } else {
            0int
        });
        assert(p.to_multiset().insert(p[n - 1]).count(x) == p.to_multiset().count(x) + if x == p[n
            - 1] {
            1int
        } else {
            0int
        });
    }
    assert(tgt.to_multiset() =~= p.to_multiset().remove(p[0]));
}

/// Every key occupied after an extraction is bounded by the extracted
/// root: the remaining keys are a sub-multiset of the old occupied keys,
/// all of which the old root dominates.
proof fn lemma_remaining_bounded(s0: Seq<u64>, n0: int, s2: Seq<u64>, n2: int)
    requires
        heap_ordered(s0, n0),
        0 < n0 <= s0.len(),
        n2 == n0 - 1,
        n2 <= s2.len(),
        s2.subrange(0, n2).to_multiset() == s0.subrange(0, n0).to_multiset().remove(s0[0]),
    ensures
        forall|k: int| 0 <= k < n2 ==> #[trigger] s2[k] <= s0[0],
{
    broadcast use group_to_multiset_ensures, group_multiset_axioms;

    let fin = s2.subrange(0, n2);
    let p0 = s0.subrange(0, n0);
    assert forall|k: int| 0 <= k < n2 implies #[trigger] s2[k] <= s0[0] by {
        assert(fin[k] == s2[k]);
        assert(fin.contains(fin[k]));
        assert(fin.to_multiset().count(fin[k]) > 0);
        assert(p0.to_multiset().count(fin[k]) > 0);
        assert(p0.contains(fin[k]));
        let j = choose|j: int| 0 <= j < p0.len() && p0[j] == fin[k];
        assert(s0[j] == fin[k]);
        lemma_root_is_max(s0, n0, j);
    }
}

/// What extraction leaves behind, stated over the stores: once the root is
/// overwritten with the last occupied key, the count dropped by one and the
/// heap order repaired, the remaining occupied keys are the old ones minus
/// one occurrence of the old root, they are heap-ordered, and the old root
/// bounds both the old and the remaining keys.
proof fn lemma_remove_post(s0: Seq<u64>, n0: int, s2: Seq<u64>)
    requires
        heap_ordered(s0, n0),
        1 <= n0 <= s0.len(),
        s2.len() == s0.len(),
        edges_from(s2, n0 - 1, 0),
        s2.subrange(0, n0 - 1).to_multiset() == s0.update(0, s0[n0 - 1]).subrange(
            0,
            n0 - 1,
        ).to_multiset(),
    ensures
        heap_ordered(s2, n0 - 1),
        s2.subrange(0, n0 - 1).to_multiset() == s0.subrange(0, n0).to_multiset().remove(s0[0]),
        forall|k: int| 0 <= k < n0 ==> #[trigger] s0[k] <= s0[0],
        forall|k: int| 0 <= k < n0 - 1 ==> #[trigger] s2[k] <= s0[0],
{
    broadcast use lemma_parent_bounds;

    assert forall|k: int| 1 <= k < n0 - 1 implies #[trigger] s2[k] <= s2[parent_of(k)] by {
        assert(parent_of(k) >= 0);
    }
    lemma_extract_prefix_multiset(s0, n0);
    assert forall|k: int| 0 <= k < n0 implies #[trigger] s0[k] <= s0[0] by {
        lemma_root_is_max(s0, n0, k);
    }
    lemma_remaining_bounded(s0, n0, s2, n0 - 1);
}

/// After a node `c` was swapped with its largest child `m` (whose key was
/// the largest among `c` and its children) and the subtree under `m` was
/// repaired, every edge whose parent slot is at `c` or beyond holds. `s` is
/// the store before the swap and `s2` the store after the repair.
proof fn lemma_bubble_down_merge(s: Seq<u64>, s2: Seq<u64>, c: int, m: int, n: int)
    requires
        0 <= c < n <= s.len(),
        s2.len() == s.len(),
        m == 2 * c + 1 || m == 2 * c + 2,
        m < n,
        edges_from(s, n, c + 1),
        s[c] <= s[m],
        2 * c + 1 < n ==> s[2 * c + 1] <= s[m],
        2 * c + 2 < n ==> s[2 * c + 2] <= s[m],
        forall|k: int|
            0 <= k < s.len() && k != m && k < 2 * m + 1 ==> #[trigger] s2[k] == s.update(
                c,
                s[m],
            ).update(m, s[c])[k],
        forall|k: int|
            n <= k < s.len() ==> #[trigger] s2[k] == s.update(c, s[m]).update(m, s[c])[k],
        edges_from(s2, n, m),
        s2[m] == s.update(c, s[m]).update(m, s[c])[m] || (2 * m + 1 < n && s2[m] == s.update(
            c,
            s[m],
        ).update(m, s[c])[2 * m + 1]) || (2 * m + 2 < n && s2[m] == s.update(c, s[m]).update(
            m,
            s[c],
        )[2 * m + 2]),
    ensures
        edges_from(s2, n, c),
{
    broadcast use lemma_parent_bounds;

    let s1 = s.update(c, s[m]).update(m, s[c]);
    assert(parent_of(m) == c);
    assert(s2[c] == s1[c]);
    assert(s1[c] == s[m]);
    assert forall|k: int| 1 <= k < n && #[trigger] parent_of(k) >= c implies s2[k] <= s2[parent_of(
        k,
    )] by {
        let pk = parent_of(k);
        if pk >= m {
            assert(s2[k] <= s2[pk]);
        } else if pk == c {
            if k == m {
                if 2 * m + 1 < n {
                    assert(parent_of(2 * m + 1) == m);
                    assert(s1[2 * m + 1] == s[2 * m + 1]);
                    assert(s[2 * m + 1] <= s[m]);
                }
                if 2 * m + 2 < n {
                    assert(parent_of(2 * m + 2) == m);
                    assert(s1[2 * m + 2] == s[2 * m + 2]);
                    assert(s[2 * m + 2] <= s[m]);
                }
                assert(s1[m] == s[c]);
                assert(s2[m] <= s[m]);
            } else {
                assert(k == 2 * c + 1 || k == 2 * c + 2);
                assert(k != m && k < 2 * m + 1);
                assert(s2[k] == s1[k]);
                assert(s1[k] == s[k]);
                assert(s[k] <= s[m]);
            }
        } else {
            assert(k <= 2 * pk + 2);
            assert(k < 2 * m + 1 && k != m && k != c);
            assert(pk != m && pk < 2 * m + 1 && pk != c);
            assert(s2[k] == s1[k]);
            assert(s1[k] == s[k]);
            assert(s2[pk] == s1[pk]);
            assert(s1[pk] == s[pk]);
            assert(s[k] <= s[pk]);
        }
    }
}

/// Error returned by `insert` when every slot is already occupied; it
/// carries the capacity the queue was configured with.
#[derive(Clone, Copy, Debug, PartialEq, Eq, Structural)]
pub struct QueueFullError {
    pub capacity: usize,
}

/// A max-heap over `u64` keys with a fixed capacity of `N` slots.
pub struct FixedPriorityQueue<const N: usize> {
    arr: Vec<u64>,
    size: usize,
}

impl<const N: usize> View for FixedPriorityQueue<N> {
    type V = Seq<u64>;

    closed spec fn view(&self) -> Seq<u64> {
        self.arr@
    }
}

impl<const N: usize> FixedPriorityQueue<N> {
    /// Number of occupied slots.
    pub closed spec fn count(&self) -> int {
        self.size as int
    }

    /// Well-formed: the backing store holds exactly `N` slots, the count is
    /// within bounds, and the occupied prefix is heap-ordered.
    pub open spec fn wf(&self) -> bool {
        &&& self@.len() == N
        &&& 0 <= self.count() <= N
        &&& heap_ordered(self@, self.count())
    }

    /// An empty queue: no slot occupied, every slot holding the default key.
    pub fn new() -> (r: Self)
        ensures
            r.wf(),
            r.count() == 0,
            r@ == Seq::new(N as nat, |i: int| 0u64),
    {
        Self::default()
    }

    /// The current number of occupied slots.
    pub fn len(&self) -> (r: usize)
        ensures
            r as int == self.count(),
    {
        return self.size;
    }

    /// Places `val` in the first free slot and bubbles it up, or fails with
    /// `QueueFullError` when every slot is occupied. On success the returned
    /// index is the slot the key was placed in before bubbling began; it is
    /// a diagnostic only and is not a stable handle to the key.
    pub fn insert(&mut self, val: u64) -> (r: Result<usize, QueueFullError>)
        requires
            old(self).wf(),
        ensures
            final(self).wf(),
            old(self).count() == N as int ==> r == Err::<usize, QueueFullError>(
                (QueueFullError { capacity: N }),
            ) && final(self)@ == old(self)@ && final(self).count() == old(self).count(),
            old(self).count() < N as int ==> {
                &&& r matches Ok(i) && i as int == old(self).count()
                &&& final(self).count() == old(self).count() + 1
                &&& final(self)@.subrange(0, final(self).count()).to_multiset() == old(self)@.subrange(0, old(self).count()).to_multiset().insert(val)
                &&& forall|k: int|
                    final(self).count() <= k < N as int ==> final(self)@[k] == old(self)@[k]
                &&& final(self)@ == sift_up(old(self)@.update(old(self).count(), val), old(self).count())
            },
    {
        if self.size >= N {
            return Err(QueueFullError { capacity: N });
        }
        let ghost s0 = self.arr@;
        let ghost n0 = self.size as int;
        self.arr[self.size] = val;
        proof {
            assert(self.arr@ == s0.update(n0, val));
            assert(forall|k: int| 1 <= k ==> 2 * parent_of(k) + 1 <= k);
        }
        self.bubble_up(self.size);
        self.size = self.size + 1;
        proof {
            broadcast use group_to_multiset_ensures, group_multiset_axioms;

            assert(s0.update(n0, val).subrange(0, n0 + 1) =~= s0.subrange(0, n0).push(val));
        }
        return Ok(self.size - 1);
    }

    /// Exchanges the keys held by slots `i` and `j`.
    fn swap_slots(&mut self, i: usize, j: usize)
        requires
            i < old(self).arr@.len(),
            j < old(self).arr@.len(),
        ensures
            final(self).size == old(self).size,
            final(self).arr@ == old(self).arr@.update(i as int, old(self).arr@[j as int]).update(
                j as int,
                old(self).arr@[i as int],
            ),
    {
        let vi = self.arr[i];
        let vj = self.arr[j];
        self.arr[i] = vj;
        self.arr[j] = vi;
    }

    /// Restores the heap order after a new key was placed at `current`:
    /// while the key exceeds its parent, the two are swapped.
    fn bubble_up(&mut self, current: usize)
        requires
            old(self).arr@.len() == N,
            old(self).size < N,
            current <= old(self).size,
            forall|k: int|
                1 <= k <= old(self).size && k != current ==> #[trigger] old(self).arr@[k] <= old(self).arr@[parent_of(k)],
            current >= 1 ==> forall|k: int|
                1 <= k <= old(self).size && parent_of(k) == current ==> #[trigger] old(self).arr@[k] <= old(self).arr@[parent_of(current as int)],
        ensures
            final(self).size == old(self).size,
            final(self).arr@.len() == N,
            forall|k: int|
                old(self).size < k < N as int ==> final(self).arr@[k] == old(self).arr@[k],
            final(self).arr@.subrange(0, old(self).size + 1).to_multiset() == old(self).arr@.subrange(0, old(self).size + 1).to_multiset(),
            forall|k: int|
                1 <= k <= final(self).size ==> #[trigger] final(self).arr@[k] <= final(self).arr@[parent_of(k)],
            final(self).arr@ == sift_up(old(self).arr@, current as int),
            forall|k: int|
                0 <= k < N as int && !on_chain(current as int, k) ==> #[trigger] final(self).arr@[k] == old(self).arr@[k],
        decreases current,
    {
        let parent: usize = if current == 0 {
            0
        } else {
            (current - 1) / 2
        };
        if current >= 1 && self.arr[current] > self.arr[parent] {
            let ghost s = self.arr@;
            let ghost c = current as int;
            let ghost p = parent as int;
            proof {
                assert(p == parent_of(c));
                assert(forall|k: int| 1 <= k ==> 2 * parent_of(k) + 1 <= k);
            }
            self.swap_slots(current, parent);
            proof {
                lemma_swap_preserves_prefix_multiset(s, c, p, old(self).size + 1);
                assert forall|k: int|
                    1 <= k <= old(self).size && k != p implies #[trigger] self.arr@[k]
                    <= self.arr@[parent_of(k)] by {
                    if k == c {
                        assert(self.arr@[c] == s[p]);
                        assert(self.arr@[p] == s[c]);
                    } else if parent_of(k) == c {
                        assert(self.arr@[k] == s[k]);
                        assert(s[k] <= s[parent_of(c)]);
                    } else if parent_of(k) == p {
                        assert(self.arr@[k] == s[k]);
                        assert(s[k] <= s[p]);
                        assert(self.arr@[p] == s[c]);
                    } else {
                        assert(self.arr@[k] == s[k]);
                        assert(self.arr@[parent_of(k)] == s[parent_of(k)]);
                    }
                }
                if p >= 1 {
                    assert forall|k: int|
                        1 <= k <= old(self).size && parent_of(k) == p implies #[trigger] self.arr@[k]
                        <= self.arr@[parent_of(p)] by {
                        assert(parent_of(p) < p);
                        assert(self.arr@[parent_of(p)] == s[parent_of(p)]);
                        assert(s[p] <= s[parent_of(p)]);
                        if k == c {
                            assert(self.arr@[c] == s[p]);
                        } else {
                            assert(self.arr@[k] == s[k]);
                            assert(s[k] <= s[p]);
                        }
                    }
                }
            }
            self.bubble_up(parent);
            proof {
                assert(sift_up(s, c) == sift_up(s.update(c, s[p]).update(p, s[c]), p));
                assert forall|k: int|
                    0 <= k < N as int && !on_chain(c, k) implies #[trigger] self.arr@[k] == s[k] by {
                    assert(on_chain(c, c));
                    assert(on_chain(p, p));
                    assert(on_chain(c, p));
                    if on_chain(p, k) {
                        assert(on_chain(c, k));
                    }
                }
            }
        } else {
            proof {
                assert(sift_up(self.arr@, current as int) == self.arr@);
            }
        }
    }

    /// Extracts the maximum key, or returns `None` when no slot is
    /// occupied. The last occupied key moves to the root and bubbles down;
    /// the slot it vacated keeps its stale value. Every key still occupied
    /// afterwards is bounded by the extracted one, so successive
    /// extractions come out in descending order.
    #[verifier::rlimit(50)]
    pub fn remove(&mut self) -> (r: Option<u64>)
        requires
            old(self).wf(),
        ensures
            final(self).wf(),
            old(self).count() == 0 ==> r is None && final(self)@ == old(self)@ && final(self).count() == 0,
            old(self).count() > 0 ==> {
                &&& r == Some(old(self)@[0])
                &&& final(self).count() == old(self).count() - 1
                &&& final(self)@.subrange(0, final(self).count()).to_multiset() == old(self)@.subrange(0, old(self).count()).to_multiset().remove(old(self)@[0])
                &&& forall|k: int| 0 <= k < old(self).count() ==> #[trigger] old(self)@[k] <= old(self)@[0]
                &&& forall|k: int| 0 <= k < final(self).count() ==> #[trigger] final(self)@[k] <= old(self)@[0]
                &&& forall|k: int|
                    final(self).count() <= k < N as int ==> final(self)@[k] == old(self)@[k]
                &&& final(self)@ == sift_down(old(self)@.update(0, old(self)@[old(self).count() - 1]), old(self).count() - 1, 0)
            },
    {
        if self.size == 0 {
            return None;
        }
        let result = Some(self.arr[0]);
        let ghost s0 = self.arr@;
        let ghost n0 = self.size as int;
        let last = self.arr[self.size - 1];
        self.arr[0] = last;
        self.size = self.size - 1;
        proof {
            broadcast use lemma_parent_bounds;

            assert(self.arr@ == s0.update(0, s0[n0 - 1]));
            assert forall|k: int|
                1 <= k < self.size as int && #[trigger] parent_of(k) >= 1 implies self.arr@[k]
                <= self.arr@[parent_of(k)] by {
                assert(self.arr@[k] == s0[k]);
                assert(self.arr@[parent_of(k)] == s0[parent_of(k)]);
            }
            assert(edges_from(self.arr@, self.size as int, 1));
        }
        self.bubble_down(0);
        proof {
            lemma_remove_post(s0, n0, self.arr@);
        }
        return result;
    }

    /// Restores the heap order after the key at `current` was replaced:
    /// while the key is exceeded by a child, it is swapped with the larger
    /// child (the right one only when it strictly exceeds the left).
    fn bubble_down(&mut self, current: usize)
        requires
            old(self).arr@.len() == N,
            old(self).size <= N,
            edges_from(old(self).arr@, old(self).size as int, current + 1),
        ensures
            final(self).size == old(self).size,
            final(self).arr@.len() == N,
            forall|k: int|
                0 <= k < N as int && !(in_subtree(current as int, k) && k < old(self).size)
                    ==> #[trigger] final(self).arr@[k] == old(self).arr@[k],
            forall|k: int|
                old(self).size <= k < N as int ==> #[trigger] final(self).arr@[k] == old(self).arr@[k],
            final(self).arr@.subrange(0, old(self).size as int).to_multiset() == old(self).arr@.subrange(0, old(self).size as int).to_multiset(),
            edges_from(final(self).arr@, final(self).size as int, current as int),
            final(self).arr@ == sift_down(old(self).arr@, old(self).size as int, current as int),
            final(self).arr@[current as int] == old(self).arr@[current as int] || (2 * current + 1
                < old(self).size && final(self).arr@[current as int] == old(self).arr@[2 * current
                + 1]) || (2 * current + 2 < old(self).size && final(self).arr@[current as int]
                == old(self).arr@[2 * current + 2]),
        decreases self.size - current,
    {
        if current >= self.size / 2 {
            proof {
                broadcast use lemma_parent_bounds;

                assert forall|k: int|
                    1 <= k < self.size as int && #[trigger] parent_of(k) >= current as int
                    implies self.arr@[k] <= self.arr@[parent_of(k)] by {
                    if parent_of(k) == current as int {
                        assert(k >= 2 * (self.size as int / 2) + 1);
                        assert(false);
                    }
                }
                assert(edges_from(self.arr@, self.size as int, current as int));
                assert(2 * (current as int) + 1 >= self.size as int);
                assert(sift_down(self.arr@, self.size as int, current as int) == self.arr@);
            }
            return ;
        }
        let left = 2 * current + 1;
        let right = 2 * current + 2;
        let mut max = current;
        if self.arr[left] > self.arr[max] {
            max = left;
        }
        if right < self.size && self.arr[right] > self.arr[max] {
            max = right;
        }
        if max != current {
            let ghost s = self.arr@;
            let ghost c = current as int;
            let ghost m = max as int;
            let ghost n = self.size as int;
            self.swap_slots(current, max);
            proof {
                broadcast use lemma_parent_bounds;

                lemma_swap_preserves_prefix_multiset(s, c, m, n);
                assert forall|k: int|
                    1 <= k < n && #[trigger] parent_of(k) >= m + 1 implies self.arr@[k]
                    <= self.arr@[parent_of(k)] by {
                    assert(self.arr@[k] == s[k]);
                    assert(self.arr@[parent_of(k)] == s[parent_of(k)]);
                    assert(parent_of(k) >= c + 1);
                }
                assert(edges_from(self.arr@, n, m + 1));
            }
            self.bubble_down(max);
            proof {
                broadcast use lemma_parent_bounds;

                let s1 = s.update(c, s[m]).update(m, s[c]);
                assert forall|k: int|
                    0 <= k < N as int && k != m && k < 2 * m + 1 implies #[trigger] self.arr@[k]
                    == s1[k] by {
                    if k < n && in_subtree(m, k) {
                        lemma_subtree_member_bounds(m, k);
                        assert(false);
                    }
                }
                lemma_bubble_down_merge(s, self.arr@, c, m, n);
                assert(self.arr@[c] == s[m]);
                assert(in_subtree(c, c));
                assert(parent_of(m) == c);
                assert(in_subtree(c, m));
                assert forall|k: int|
                    0 <= k < N as int && !(in_subtree(c, k) && k < n) implies #[trigger] self.arr@[k]
                    == s[k] by {
                    if k >= n {
                        assert(self.arr@[k] == s1[k]);
                        assert(s1[k] == s[k]);
                    } else {
                        if in_subtree(m, k) {
                            lemma_subtree_trans(c, m, k);
                            assert(false);
                        }
                        assert(self.arr@[k] == s1[k]);
                        assert(s1[k] == s[k]);
                    }
                }
                assert(sift_down(s, n, c) == sift_down(s1, n, m));
            }
        } else {
            proof {
                broadcast use lemma_parent_bounds;

                assert forall|k: int|
                    1 <= k < self.size as int && #[trigger] parent_of(k) >= current as int
                    implies self.arr@[k] <= self.arr@[parent_of(k)] by {
                    if parent_of(k) == current as int {
                        assert(k == 2 * current + 1 || k == 2 * current + 2);
                    }
                }
                assert(edges_from(self.arr@, self.size as int, current as int));
                assert(sift_down(self.arr@, self.size as int, current as int) == self.arr@);
            }
        }
    }

    /// Adopts `value` as the backing store and heapifies it in place:
    /// bubble-down is applied to every internal node, from the last one up
    /// to the root. The result occupies all `N` slots and holds exactly the
    /// keys of `value`, rearranged into heap order.
    pub fn from_array(value: [u64; N]) -> (r: Self)
        ensures
            r.wf(),
            r.count() == N as int,
            r@.to_multiset() == value@.to_multiset(),
            r@ == heapify(value@, N as int),
    {
        let mut arr: Vec<u64> = Vec::new();
        let mut idx: usize = 0;
        while idx < N
            invariant
                idx <= N,
                arr@ == value@.subrange(0, idx as int),
            decreases N - idx,
        {
            arr.push(value[idx]);
            idx = idx + 1;
            proof {
                assert(value@.subrange(0, idx as int) =~= value@.subrange(0, idx - 1).push(
                    value@[idx - 1],
                ));
            }
        }
        proof {
            assert(arr@ =~= value@);
        }
        let mut q = FixedPriorityQueue { arr, size: N };
        let mut i: usize = N / 2;
        proof {
            broadcast use lemma_parent_bounds;

            assert forall|k: int|
                1 <= k < N as int && #[trigger] parent_of(k) >= N as int / 2 implies q.arr@[k]
                <= q.arr@[parent_of(k)] by {
                assert(k >= 2 * (N as int / 2) + 1);
                assert(false);
            }
            assert(edges_from(q.arr@, N as int, N as int / 2));
            assert(heapify_from(value@, N as int, N as int / 2) == value@);
        }
        while i > 0
            invariant
                q.arr@.len() == N,
                q.size == N,
                i <= N / 2,
                edges_from(q.arr@, N as int, i as int),
                q.arr@.to_multiset() == value@.to_multiset(),
                q.arr@ == heapify_from(value@, N as int, i as int),
            decreases i,
        {
            i = i - 1;
            let ghost pre = q.arr@;
            q.bubble_down(i);
            proof {
                assert(pre.subrange(0, N as int) =~= pre);
                assert(q.arr@.subrange(0, N as int) =~= q.arr@);
                assert(heapify_from(value@, N as int, i as int) == sift_down(
                    heapify_from(value@, N as int, i as int + 1),
                    N as int,
                    i as int,
                ));
            }
        }
        proof {
            broadcast use lemma_parent_bounds;

            assert forall|k: int| 1 <= k < N as int implies #[trigger] q.arr@[k]
                <= q.arr@[parent_of(k)] by {
                assert(parent_of(k) >= 0);
            }
            assert(heap_ordered(q.arr@, N as int));
        }
        q
    }

    /// A copy of the whole backing store, stale slots included.
    pub fn storage(&self) -> (r: Vec<u64>)
        ensures
            r@ == self@,
    {
        self.arr.clone()
    }
}

impl<const N: usize> Default for FixedPriorityQueue<N> {
    fn default() -> (r: Self)
        ensures
            r.wf(),
            r.count() == 0,
            r@ == Seq::new(N as nat, |i: int| 0u64),
    {
        let mut arr: Vec<u64> = Vec::new();
        while arr.len() < N
            invariant
                arr@.len() <= N,
                forall|i: int| 0 <= i < arr@.len() ==> arr@[i] == 0u64,
            decreases N - arr@.len(),
        {
            arr.push(0u64);
        }
        proof {
            assert(arr@ =~= Seq::new(N as nat, |i: int| 0u64));
        }
        FixedPriorityQueue { arr, size: 0 }
    }
}

} // verus!
