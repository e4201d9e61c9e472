//! A binary heap of keyed entries that hands out the least one.
use vstd::multiset::Multiset;
use vstd::prelude::*;

verus! {

/// An entry: a key, and what it belongs to.
pub type Entry = (u64, u32);

/// Entries are ordered by key, then by what they belong to.
pub open spec fn entry_le(a: Entry, b: Entry) -> bool {
    a.0 < b.0 || a.0 == b.0 && a.1 <= b.1
}

fn entry_lt(a: Entry, b: Entry) -> (r: bool)
    ensures
        r == !entry_le(b, a),
{
    a.0 < b.0 || a.0 == b.0 && a.1 < b.1
}

/// The entry above entry `i`.
pub open spec fn above(i: int) -> int {
    (i - 1) / 2
}

/// No entry is less than the one above it.
pub open spec fn heap_ordered(v: Seq<Entry>) -> bool {
    forall|i: int| 0 < i < v.len() ==> entry_le(v[above(i)], #[trigger] v[i])
}

/// A heap of entries.
pub struct MinHeap {
    v: Vec<Entry>,
}

proof fn lemma_update_multiset(s: Seq<Entry>, i: int, x: Entry)
    requires
        0 <= i < s.len(),
    ensures
        s.update(i, x).to_multiset() == s.to_multiset().remove(s[i]).insert(x),
{
    let r = s.remove(i);
    vstd::seq_lib::to_multiset_remove(s, i);
    vstd::seq_lib::to_multiset_insert(r, i, x);
    assert(r.insert(i, x) =~= s.update(i, x));
}

proof fn lemma_swap_multiset(s: Seq<Entry>, i: int, j: int)
    requires
        0 <= i < s.len(),
        0 <= j < s.len(),
        i != j,
    ensures
        s.update(i, s[j]).update(j, s[i]).to_multiset() =~= s.to_multiset(),
{
    let a = s.update(i, s[j]);
    lemma_update_multiset(s, i, s[j]);
    lemma_update_multiset(a, j, s[i]);
    s.to_multiset_ensures();
    a.to_multiset_ensures();
    let m = s.to_multiset();
    assert(s.to_multiset().count(s[i]) > 0) by {
        assert(s.contains(s[i]));
    }
    assert(a.to_multiset().count(a[j]) > 0) by {
        assert(a.contains(a[j]));
    }
}

proof fn lemma_root_least(v: Seq<Entry>, i: int)
    requires
        heap_ordered(v),
        0 <= i < v.len(),
    ensures
        entry_le(v[0], v[i]),
    decreases i,
{
    if i > 0 {
        lemma_root_least(v, above(i));
        assert(entry_le(v[above(i)], v[i]));
    }
}

impl MinHeap {
    pub closed spec fn wf(self) -> bool {
        heap_ordered(self.v@)
    }

    /// The entries of the heap.
    pub closed spec fn view(self) -> Multiset<Entry> {
        self.v@.to_multiset()
    }

    /// How many entries the heap has.
    pub closed spec fn size(self) -> nat {
        self.v@.len()
    }

    /// An empty heap.
    pub fn new() -> (r: MinHeap)
        ensures
            r.wf(),
            r@ =~= Multiset::<Entry>::empty(),
            r.size() == 0,
    {
        let r = MinHeap { v: Vec::new() };
        proof {
            r.v@.to_multiset_ensures();
        }
        r
    }

    /// Adds an entry.
    pub fn push(&mut self, e: Entry)
        requires
            old(self).wf(),
        ensures
            final(self).wf(),
            final(self)@ =~= old(self)@.insert(e),
            final(self).size() == old(self).size() + 1,
    {
        let ghost s0 = self.v@;
        proof {
            s0.to_multiset_ensures();
        }
        self.v.push(e);
        let ghost m = self.v@.to_multiset();
        let mut i: usize = self.v.len() - 1;
        assert forall|j: int|
            0 < j < self.v@.len() && above(j) == i implies i == 0 || entry_le(
            self.v@[above(i as int)],
            #[trigger] self.v@[j],
        ) by {}
        while i > 0
            invariant
                i < self.v@.len(),
                s0 == old(self).v@,
                self.v@.len() == s0.len() + 1,
                self.v@.to_multiset() == m,
                m == s0.to_multiset().insert(e),
                forall|j: int|
                    0 < j < self.v@.len() && j != i ==> entry_le(
                        self.v@[above(j)],
                        #[trigger] self.v@[j],
                    ),
                forall|j: int|
                    0 < j < self.v@.len() && above(j) == i ==> i == 0 || entry_le(
                        self.v@[above(i as int)],
                        #[trigger] self.v@[j],
                    ),
            decreases i,
        {
            let p: usize = (i - 1) / 2;
            let a: Entry = self.v[p];
            let b: Entry = self.v[i];
            if !entry_lt(b, a) {
                assert(heap_ordered(self.v@));
                return ;
            }
            let ghost before = self.v@;
            self.v.set(p, b);
            self.v.set(i, a);
            proof {
                lemma_swap_multiset(before, p as int, i as int);
                assert forall|j: int| 0 < j < self.v@.len() && j != p implies entry_le(
                    self.v@[above(j)],
                    #[trigger] self.v@[j],
                ) by {
                    if j != i {
                        assert(entry_le(before[above(j)], before[j]));
                    }
                }
                assert forall|j: int|
                    0 < j < self.v@.len() && above(j) == p implies p == 0 || entry_le(
                    self.v@[above(p as int)],
                    #[trigger] self.v@[j],
                ) by {
                    if p > 0 {
                        assert(entry_le(before[above(p as int)], before[p as int]));
                        if j != i {
                            assert(entry_le(before[above(j)], before[j]));
                        }
                    }
                }
            }
            i = p;
        }
    }

    /// Takes out the least entry; nothing if the heap is empty.
    pub fn pop(&mut self) -> (r: Option<Entry>)
        requires
            old(self).wf(),
        ensures
            final(self).wf(),
            r is None <==> old(self).size() == 0,
            match r {
                None => final(self)@ == old(self)@ && final(self).size() == 0 && old(self)@
                    =~= Multiset::<Entry>::empty(),
                Some(e) => {
                    &&& old(self)@.contains(e)
                    &&& final(self)@ =~= old(self)@.remove(e)
                    &&& final(self).size() == old(self).size() - 1
                    &&& forall|f: Entry| #[trigger] old(self)@.contains(f) ==> entry_le(e, f)
                },
            },
    {
        let ghost s0 = self.v@;
        proof {
            s0.to_multiset_ensures();
        }
        if self.v.len() == 0 {
            assert(s0.to_multiset() =~= Multiset::<Entry>::empty()) by {
                assert(s0.to_multiset().len() == 0);
            }
            return None;
        }
        let top: Entry = self.v[0];
        proof {
            assert(s0.contains(s0[0]));
            assert forall|f: Entry| #[trigger] s0.to_multiset().contains(f) implies entry_le(
                top,
                f,
            ) by {
                assert(s0.contains(f));
                let k = choose|k: int| 0 <= k < s0.len() && s0[k] == f;
                lemma_root_least(s0, k);
            }
        }
        let n: usize = self.v.len() - 1;
        let last: Entry = self.v[n];
        self.v.truncate(n);
        let ghost s1 = self.v@;
        proof {
            assert(s0 =~= s1.push(last));
            s1.to_multiset_ensures();
            assert(s0.to_multiset() =~= s1.to_multiset().insert(last));
        }
        if n == 0 {
            return Some(top);
        }
        self.v.set(0, last);
        proof {
            lemma_update_multiset(s1, 0, last);
            assert(self.v@.to_multiset() =~= s0.to_multiset().remove(top)) by {
                assert(s1.contains(s1[0]));
                assert(s1.to_multiset().count(top) > 0);
            }
        }
        let ghost m = self.v@.to_multiset();
        let mut i: usize = 0;
        assert forall|j: int| 0 < j < self.v@.len() && above(j) != 0 implies entry_le(
            self.v@[above(j)],
            #[trigger] self.v@[j],
        ) by {
            assert(entry_le(s0[above(j)], s0[j]));
        }
        loop
            invariant
                i < self.v@.len(),
                self.v@.len() == n == s0.len() - 1,
                self.v@.to_multiset() == m,
                forall|j: int|
                    0 < j < self.v@.len() && above(j) != i ==> entry_le(
                        self.v@[above(j)],
                        #[trigger] self.v@[j],
                    ),
                forall|j: int|
                    0 < j < self.v@.len() && above(j) == i && i > 0 ==> entry_le(
                        self.v@[above(i as int)],
                        #[trigger] self.v@[j],
                    ),
            ensures
                heap_ordered(self.v@),
                self.v@.len() == s0.len() - 1,
                self.v@.to_multiset() == m,
            decreases n - i,
        {
            if i >= n / 2 {
                assert(heap_ordered(self.v@)) by {
                    assert forall|j: int| 0 < j < self.v@.len() implies entry_le(
                        self.v@[above(j)],
                        #[trigger] self.v@[j],
                    ) by {
                        assert(above(j) != i);
                    }
                }
                break;
            }
            let mut c: usize = 2 * i + 1;
            if c + 1 < n && entry_lt(self.v[c + 1], self.v[c]) {
                c = c + 1;
            }
            let a: Entry = self.v[i];
            let b: Entry = self.v[c];
            assert(above(c as int) == i);
            if !entry_lt(b, a) {
                assert(heap_ordered(self.v@)) by {
                    assert forall|j: int| 0 < j < self.v@.len() implies entry_le(
                        self.v@[above(j)],
                        #[trigger] self.v@[j],
                    ) by {
                        if above(j) == i {
                            assert(j == 2 * i + 1 || j == 2 * i + 2);
                        }
                    }
                }
                break;
            }
            let ghost before = self.v@;
            self.v.set(i, b);
            self.v.set(c, a);
            proof {
                lemma_swap_multiset(before, i as int, c as int);
                assert forall|j: int| 0 < j < self.v@.len() && above(j) != c implies entry_le(
                    self.v@[above(j)],
                    #[trigger] self.v@[j],
                ) by {
                    if above(j) == i {
                        assert(j == 2 * i + 1 || j == 2 * i + 2);
                    } else if j == i {
                        assert(entry_le(before[above(i as int)], before[c as int]));
                    } else {
                        assert(entry_le(before[above(j)], before[j]));
                    }
                }
                assert forall|j: int|
                    0 < j < self.v@.len() && above(j) == c && c > 0 implies entry_le(
                    self.v@[above(c as int)],
                    #[trigger] self.v@[j],
                ) by {
                    assert(entry_le(before[above(j)], before[j]));
                }
            }
            i = c;
        }
        Some(top)
    }
}

} // verus!
