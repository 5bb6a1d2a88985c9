//! The banded hash tables over the shared vector pool.
//!
//! A `MemoryTable` owns `L` independent tables, one per band.  Each table
//! maps an opaque hash code to a `Bucket`: the set of handles of the
//! vectors inserted under that code in that band.  The tables share one
//! `VecStore`, so the same handle may appear under different codes in
//! different bands.

use vstd::prelude::*;

use crate::vec_store::{DataPoint, DataPointSlice, VecStore};
use crate::vec_store::{has_match, is_first_match, lemma_first_match_unique};

verus! {

/// An opaque hash code, produced by an external hash family and treated
/// here as a black-box, equality-comparable key.
pub type HashCode = Vec<i32>;

/// The error taxonomy of the storage contract.
#[derive(Clone, Copy, Debug, PartialEq, Eq, Structural)]
pub enum HashTableError {
    /// Reserved for a ranking capability this core does not implement.
    Failed,
    /// No bucket exists for the requested code and band.
    NotFound,
    /// The band index lies outside `[0, L)`.
    InvalidBand,
}

/// An unordered set of unique handles: the candidates stored under one
/// hash code within one band.
pub struct Bucket {
    handles: Vec<u32>,
}

impl View for Bucket {
    type V = Set<u32>;

    closed spec fn view(&self) -> Set<u32> {
        self.handles@.to_set()
    }
}

impl Bucket {
    /// The handles hold no duplicates, so the backing vector really
    /// represents a set.
    pub closed spec fn wf(&self) -> bool {
        self.handles@.no_duplicates()
    }

    /// An empty bucket.
    pub fn new() -> (r: Bucket)
        ensures
            r.wf(),
            r@ == Set::<u32>::empty(),
    {
        let r = Bucket { handles: Vec::new() };
        proof {
            assert(r@ =~= Set::<u32>::empty());
        }
        r
    }

    /// Membership test for one handle.
    pub fn contains(&self, h: u32) -> (r: bool)
        ensures
            r == self@.contains(h),
    {
        for i in 0..self.handles.len()
            invariant
                forall|j: int| 0 <= j < i ==> self.handles@[j] != h,
        {
            if self.handles[i] == h {
                return true;
            }
        }
        proof {
            assert(!self.handles@.contains(h));
        }
        false
    }

    /// Adds a handle; adding one that is already present changes
    /// nothing.
    pub fn insert(&mut self, h: u32)
        requires
            old(self).wf(),
        ensures
            final(self).wf(),
            final(self)@ == old(self)@.insert(h),
    {
        if !self.contains(h) {
            self.handles.push(h);
            proof {
                assert forall|p: int, q: int|
                    0 <= p < self.handles@.len() && 0 <= q < self.handles@.len() && p != q implies
                    self.handles@[p] != self.handles@[q] by {
                    if p < self.handles@.len() - 1 && q < self.handles@.len() - 1 {
                        assert(old(self).handles@[p] != old(self).handles@[q]);
                    } else if p == self.handles@.len() - 1 {
                        assert(!old(self).handles@.contains(h));
                        assert(old(self).handles@[q] != h);
                    } else {
                        assert(!old(self).handles@.contains(h));
                        assert(old(self).handles@[p] != h);
                    }
                }
                assert forall|x: u32| self@.contains(x) <==> old(self)@.insert(h).contains(x) by {
                    if self.handles@.contains(x) {
                        let k = choose|k: int|
                            0 <= k < self.handles@.len() && self.handles@[k] == x;
                        if k < self.handles@.len() - 1 {
                            assert(old(self).handles@[k] == x);
                            assert(old(self).handles@.contains(x));
                        }
                    }
                    if old(self).handles@.contains(x) {
                        let k = choose|k: int|
                            0 <= k < old(self).handles@.len() && old(self).handles@[k] == x;
                        assert(self.handles@[k] == x);
                        assert(self.handles@.contains(x));
                    }
                    if x == h {
                        assert(self.handles@[self.handles@.len() - 1] == x);
                        assert(self.handles@.contains(x));
                    }
                }
                assert(self@ =~= old(self)@.insert(h));
            }
        } else {
            proof {
                assert(self@ =~= old(self)@.insert(h));
            }
        }
    }

    /// Removes a handle; removing one that is absent changes nothing.
    pub fn remove(&mut self, h: u32)
        requires
            old(self).wf(),
        ensures
            final(self).wf(),
            final(self)@ == old(self)@.remove(h),
    {
        let n = self.handles.len();
        for i in 0..n
            invariant
                n == self.handles@.len(),
                old(self).wf(),
                *self == *old(self),
                forall|j: int| 0 <= j < i ==> self.handles@[j] != h,
        {
            if self.handles[i] == h {
                self.handles.remove(i);
                proof {
                    let s0 = old(self).handles@;
                    let s1 = self.handles@;
                    assert(s1 =~= s0.remove(i as int));
                    assert forall|p: int, q: int|
                        0 <= p < s1.len() && 0 <= q < s1.len() && p != q implies
                        s1[p] != s1[q] by {
                        let p0: int = if p < i { p } else { p + 1 };
                        let q0: int = if q < i { q } else { q + 1 };
                        assert(s1[p] == s0[p0]);
                        assert(s1[q] == s0[q0]);
                        assert(s0[p0] != s0[q0]);
                    }
                    assert forall|x: u32| s1.to_set().contains(x) <==>
                        s0.to_set().remove(h).contains(x) by {
                        if s1.contains(x) {
                            let k = choose|k: int| 0 <= k < s1.len() && s1[k] == x;
                            let k0: int = if k < i { k } else { k + 1 };
                            assert(s0[k0] == x);
                            assert(s0.contains(x));
                            if x == h {
                                assert(s0[i as int] == h);
                                assert(k0 != i);
                                assert(s0[k0] == s0[i as int]);
                            }
                        }
                        if s0.contains(x) && x != h {
                            let k0 = choose|k0: int| 0 <= k0 < s0.len() && s0[k0] == x;
                            assert(k0 != i);
                            let k: int = if k0 < i { k0 } else { k0 - 1 };
                            assert(s1[k] == x);
                            assert(s1.contains(x));
                        }
                    }
                    assert(self@ =~= old(self)@.remove(h));
                }
                return;
            }
        }
        proof {
            assert(!self.handles@.contains(h));
            assert(!self@.contains(h));
            assert(self@ =~= old(self)@.remove(h));
        }
    }

    /// The number of handles in the bucket.
    pub fn len(&self) -> (r: usize)
        requires
            self.wf(),
        ensures
            r == self@.len(),
    {
        proof {
            self.handles@.unique_seq_to_set();
        }
        self.handles.len()
    }

    /// The handles as a plain vector, free of duplicates, for callers
    /// that walk the candidate set.
    pub fn members(&self) -> (r: &Vec<u32>)
        requires
            self.wf(),
        ensures
            r@.no_duplicates(),
            r@.to_set() == self@,
    {
        &self.handles
    }
}

/// One code with its bucket, inside one band's table.
struct Entry {
    code: HashCode,
    bucket: Bucket,
}

/// One band's table: a mapping from hash code to bucket, kept as a list
/// of entries whose codes are pairwise distinct.
struct Table {
    entries: Vec<Entry>,
}

impl Table {
    /// Codes are pairwise distinct and every bucket is well formed, so
    /// the list really represents a map.
    spec fn wf(&self) -> bool {
        &&& forall|i: int|
            0 <= i < self.entries@.len() ==> (#[trigger] self.entries@[i]).bucket.wf()
        &&& forall|i: int, j: int|
            #![trigger self.entries@[i], self.entries@[j]]
            0 <= i < j < self.entries@.len() ==> self.entries@[i].code@ != self.entries@[j].code@
    }

    /// True when some entry carries `c`: the bucket for `c` exists.
    spec fn has_code(&self, c: Seq<i32>) -> bool {
        exists|i: int| 0 <= i < self.entries@.len() && (#[trigger] self.entries@[i]).code@ == c
    }

    /// The position of the entry carrying `c`; meaningful only when
    /// `has_code(c)` holds, and then unique by `wf`.
    spec fn index_of(&self, c: Seq<i32>) -> int {
        choose|i: int| 0 <= i < self.entries@.len() && (#[trigger] self.entries@[i]).code@ == c
    }

    /// The bucket stored under `c`; the empty set when no bucket exists.
    spec fn bucket_of(&self, c: Seq<i32>) -> Set<u32> {
        if self.has_code(c) {
            self.entries@[self.index_of(c)].bucket@
        } else {
            Set::<u32>::empty()
        }
    }

    /// Every handle in every bucket lies below `n`.
    spec fn handles_below(&self, n: int) -> bool {
        forall|i: int, h: u32|
            #![trigger self.entries@[i].bucket@.contains(h)]
            0 <= i < self.entries@.len() && self.entries@[i].bucket@.contains(h) ==> h < n
    }

    /// Two entries carrying the same code are the same entry.
    proof fn lemma_code_index_unique(&self, i: int, j: int)
        requires
            self.wf(),
            0 <= i < self.entries@.len(),
            0 <= j < self.entries@.len(),
            self.entries@[i].code@ == self.entries@[j].code@,
        ensures
            i == j,
    {
        if i < j {
            assert(self.entries@[i].code@ != self.entries@[j].code@);
        } else if j < i {
            assert(self.entries@[j].code@ != self.entries@[i].code@);
        }
    }

    /// `index_of` recovers exactly the position of a carried code.
    proof fn lemma_index_of(&self, i: int)
        requires
            self.wf(),
            0 <= i < self.entries@.len(),
        ensures
            self.has_code(self.entries@[i].code@),
            self.index_of(self.entries@[i].code@) == i,
    {
        let c = self.entries@[i].code@;
        assert(self.has_code(c));
        let j = self.index_of(c);
        assert(0 <= j < self.entries@.len() && self.entries@[j].code@ == c);
        self.lemma_code_index_unique(i, j);
    }

    /// Raising the bound keeps `handles_below`.
    proof fn lemma_handles_below_mono(&self, n: int, m: int)
        requires
            self.handles_below(n),
            n <= m,
        ensures
            self.handles_below(m),
    {
    }

    /// An empty table: no code has a bucket yet.
    fn new() -> (r: Table)
        ensures
            r.wf(),
            forall|c: Seq<i32>| !(#[trigger] r.has_code(c)),
            forall|n: int| #[trigger] r.handles_below(n),
    {
        Table { entries: Vec::new() }
    }

    /// Linear scan for the entry carrying `code`.
    fn find_code(&self, code: &HashCode) -> (r: Option<usize>)
        ensures
            match r {
                Some(i) => i < self.entries@.len() && self.entries@[i as int].code@ == code@,
                None => !self.has_code(code@),
            },
    {
        for i in 0..self.entries.len()
            invariant
                forall|j: int| 0 <= j < i ==> (#[trigger] self.entries@[j]).code@ != code@,
        {
            if self.entries[i].code == *code {
                proof {
                    assert(self.entries@[i as int].code@ =~= code@);
                }
                return Some(i);
            }
        }
        None
    }

    /// The bucket stored under `code`, if one exists.
    fn get_bucket(&self, code: &HashCode) -> (r: Option<&Bucket>)
        requires
            self.wf(),
        ensures
            match r {
                Some(b) => {
                    &&& self.has_code(code@)
                    &&& b.wf()
                    &&& b@ == self.bucket_of(code@)
                },
                None => !self.has_code(code@),
            },
    {
        match self.find_code(code) {
            Some(i) => {
                proof {
                    self.lemma_index_of(i as int);
                }
                Some(&self.entries[i].bucket)
            },
            None => None,
        }
    }

    /// Inserts `h` into the bucket for `code`, creating the bucket when
    /// it is absent.  Buckets of other codes are untouched.
    fn insert_handle(&mut self, code: HashCode, h: u32)
        requires
            old(self).wf(),
        ensures
            final(self).wf(),
            final(self).has_code(code@),
            final(self).bucket_of(code@) == if old(self).has_code(code@) {
                old(self).bucket_of(code@).insert(h)
            } else {
                Set::<u32>::empty().insert(h)
            },
            forall|c: Seq<i32>|
                #![trigger final(self).has_code(c)]
                #![trigger old(self).has_code(c)]
                c != code@ ==> final(self).has_code(c) == old(self).has_code(c),
            forall|c: Seq<i32>|
                #![trigger final(self).bucket_of(c)]
                #![trigger old(self).bucket_of(c)]
                c != code@ ==> final(self).bucket_of(c) == old(self).bucket_of(c),
            forall|n: int|
                old(self).handles_below(n) && h < n ==> #[trigger] final(self).handles_below(n),
    {
        match self.find_code(&code) {
            Some(i) => {
                let e = &mut self.entries[i];
                e.bucket.insert(h);
                proof {
                    self.lemma_update_at(*old(self), i as int, code@, h);
                }
            },
            None => {
                let mut b = Bucket::new();
                b.insert(h);
                self.entries.push(Entry { code, bucket: b });
                proof {
                    self.lemma_push_new(*old(self), h);
                }
            },
        }
    }

    /// After replacing the bucket at position `i` (the entry carrying
    /// `c`) by the old bucket with `h` added, the table maps `c` to that
    /// grown bucket and every other code to its old bucket.
    proof fn lemma_update_at(&self, pre: Table, i: int, c: Seq<i32>, h: u32)
        requires
            pre.wf(),
            0 <= i < pre.entries@.len(),
            pre.entries@[i].code@ == c,
            self.entries@.len() == pre.entries@.len(),
            self.entries@[i].code == pre.entries@[i].code,
            self.entries@[i].bucket.wf(),
            self.entries@[i].bucket@ == pre.entries@[i].bucket@.insert(h),
            forall|k: int|
                0 <= k < pre.entries@.len() && k != i ==> self.entries@[k] == pre.entries@[k],
        ensures
            self.wf(),
            self.has_code(c),
            self.bucket_of(c) == pre.bucket_of(c).insert(h),
            pre.has_code(c),
            forall|c2: Seq<i32>|
                #![trigger self.has_code(c2)]
                #![trigger pre.has_code(c2)]
                c2 != c ==> self.has_code(c2) == pre.has_code(c2),
            forall|c2: Seq<i32>|
                #![trigger self.bucket_of(c2)]
                #![trigger pre.bucket_of(c2)]
                c2 != c ==> self.bucket_of(c2) == pre.bucket_of(c2),
            forall|n: int|
                pre.handles_below(n) && h < n ==> #[trigger] self.handles_below(n),
    {
        assert(forall|k: int|
            0 <= k < self.entries@.len() ==> (#[trigger] self.entries@[k]).code
                == pre.entries@[k].code);
        assert forall|p: int, q: int|
            0 <= p < q < self.entries@.len() implies self.entries@[p].code@
            != self.entries@[q].code@ by {
            assert(pre.entries@[p].code@ != pre.entries@[q].code@);
        }
        assert forall|k: int|
            0 <= k < self.entries@.len() implies (#[trigger] self.entries@[k]).bucket.wf() by {
            if k != i {
                assert(pre.entries@[k].bucket.wf());
            }
        }
        pre.lemma_index_of(i);
        self.lemma_index_of(i);
        assert(self.bucket_of(c) == pre.bucket_of(c).insert(h));
        assert forall|c2: Seq<i32>| c2 != c implies #[trigger] self.has_code(c2)
            == pre.has_code(c2) by {
            if self.has_code(c2) {
                let k = choose|k: int|
                    0 <= k < self.entries@.len() && (#[trigger] self.entries@[k]).code@ == c2;
                assert(pre.entries@[k].code@ == c2);
            }
            if pre.has_code(c2) {
                let k = choose|k: int|
                    0 <= k < pre.entries@.len() && (#[trigger] pre.entries@[k]).code@ == c2;
                assert(self.entries@[k].code@ == c2);
            }
        }
        assert forall|c2: Seq<i32>| c2 != c implies #[trigger] self.bucket_of(c2)
            == pre.bucket_of(c2) by {
            if self.has_code(c2) {
                let k = choose|k: int|
                    0 <= k < self.entries@.len() && (#[trigger] self.entries@[k]).code@ == c2;
                assert(pre.entries@[k].code@ == c2);
                self.lemma_index_of(k);
                pre.lemma_index_of(k);
                assert(k != i);
            }
        }
        assert forall|n: int| pre.handles_below(n) && h < n implies #[trigger] self.handles_below(
            n,
        ) by {
            assert forall|k: int, x: u32|
                0 <= k < self.entries@.len() && #[trigger] self.entries@[k].bucket@.contains(x)
                implies x < n by {
                if k == i {
                    if x != h {
                        assert(pre.entries@[k].bucket@.contains(x));
                    }
                } else {
                    assert(pre.entries@[k].bucket@.contains(x));
                }
            }
        }
    }

    /// After appending a fresh entry for a code the table did not carry,
    /// the table maps that code to the new bucket and every other code
    /// to its old bucket.
    proof fn lemma_push_new(&self, pre: Table, h: u32)
        requires
            pre.wf(),
            self.entries@.len() == pre.entries@.len() + 1,
            forall|k: int|
                0 <= k < pre.entries@.len() ==> self.entries@[k] == pre.entries@[k],
            !pre.has_code(self.entries@[pre.entries@.len() as int].code@),
            self.entries@[pre.entries@.len() as int].bucket.wf(),
            self.entries@[pre.entries@.len() as int].bucket@ == Set::<u32>::empty().insert(h),
        ensures
            self.wf(),
            self.has_code(self.entries@[pre.entries@.len() as int].code@),
            self.bucket_of(self.entries@[pre.entries@.len() as int].code@) == Set::<
                u32,
            >::empty().insert(h),
            forall|c2: Seq<i32>|
                #![trigger self.has_code(c2)]
                #![trigger pre.has_code(c2)]
                c2 != self.entries@[pre.entries@.len() as int].code@ ==> self.has_code(c2)
                    == pre.has_code(c2),
            forall|c2: Seq<i32>|
                #![trigger self.bucket_of(c2)]
                #![trigger pre.bucket_of(c2)]
                c2 != self.entries@[pre.entries@.len() as int].code@ ==> self.bucket_of(c2)
                    == pre.bucket_of(c2),
            forall|n: int|
                pre.handles_below(n) && h < n ==> #[trigger] self.handles_below(n),
    {
        let last = pre.entries@.len() as int;
        let c = self.entries@[last].code@;
        assert forall|p: int, q: int|
            0 <= p < q < self.entries@.len() implies self.entries@[p].code@
            != self.entries@[q].code@ by {
            if q < last {
                assert(pre.entries@[p].code@ != pre.entries@[q].code@);
            } else {
                assert(self.entries@[p] == pre.entries@[p]);
                assert(!pre.has_code(c));
                assert(pre.entries@[p].code@ != c);
            }
        }
        assert forall|k: int|
            0 <= k < self.entries@.len() implies (#[trigger] self.entries@[k]).bucket.wf() by {
            if k < last {
                assert(pre.entries@[k].bucket.wf());
            }
        }
        assert(self.wf());
        assert(self.entries@[last].code@ == c);
        assert(self.has_code(c));
        self.lemma_index_of(last);
        assert(self.bucket_of(c) == Set::<u32>::empty().insert(h));
        assert forall|c2: Seq<i32>| c2 != c implies #[trigger] self.has_code(c2)
            == pre.has_code(c2) by {
            if self.has_code(c2) {
                let k = choose|k: int|
                    0 <= k < self.entries@.len() && (#[trigger] self.entries@[k]).code@ == c2;
                assert(k != last);
                assert(pre.entries@[k].code@ == c2);
            }
            if pre.has_code(c2) {
                let k = choose|k: int|
                    0 <= k < pre.entries@.len() && (#[trigger] pre.entries@[k]).code@ == c2;
                assert(self.entries@[k].code@ == c2);
            }
        }
        assert forall|c2: Seq<i32>| c2 != c implies #[trigger] self.bucket_of(c2)
            == pre.bucket_of(c2) by {
            if self.has_code(c2) {
                let k = choose|k: int|
                    0 <= k < self.entries@.len() && (#[trigger] self.entries@[k]).code@ == c2;
                assert(k != last);
                assert(pre.entries@[k].code@ == c2);
                self.lemma_index_of(k);
                pre.lemma_index_of(k);
            }
        }
        assert forall|n: int| pre.handles_below(n) && h < n implies #[trigger] self.handles_below(
            n,
        ) by {
            assert forall|k: int, x: u32|
                0 <= k < self.entries@.len() && #[trigger] self.entries@[k].bucket@.contains(x)
                implies x < n by {
                if k == last {
                    assert(x == h);
                } else {
                    assert(pre.entries@[k].bucket@.contains(x));
                }
            }
        }
    }

    /// Removes `h` from the bucket for `code`, when that bucket exists;
    /// reports whether it did.  A missing bucket leaves the table as it
    /// was, and so does removing an absent handle from an existing
    /// bucket.
    fn remove_handle(&mut self, code: &HashCode, h: u32) -> (found: bool)
        requires
            old(self).wf(),
        ensures
            final(self).wf(),
            found == old(self).has_code(code@),
            !found ==> *final(self) == *old(self),
            found ==> {
                &&& final(self).has_code(code@)
                &&& final(self).bucket_of(code@) == old(self).bucket_of(code@).remove(h)
                &&& forall|c: Seq<i32>|
                    #![trigger final(self).has_code(c)]
                    #![trigger old(self).has_code(c)]
                    c != code@ ==> final(self).has_code(c) == old(self).has_code(c)
                &&& forall|c: Seq<i32>|
                    #![trigger final(self).bucket_of(c)]
                    #![trigger old(self).bucket_of(c)]
                    c != code@ ==> final(self).bucket_of(c) == old(self).bucket_of(c)
                &&& forall|n: int|
                    old(self).handles_below(n) ==> #[trigger] final(self).handles_below(n)
            },
    {
        match self.find_code(code) {
            Some(i) => {
                proof {
                    old(self).lemma_index_of(i as int);
                }
                let e = &mut self.entries[i];
                e.bucket.remove(h);
                proof {
                    self.lemma_remove_at(*old(self), i as int, code@, h);
                }
                true
            },
            None => false,
        }
    }

    /// After replacing the bucket at position `i` (the entry carrying
    /// `c`) by the old bucket with `h` removed, the table maps `c` to
    /// that shrunk bucket and every other code to its old bucket.
    proof fn lemma_remove_at(&self, pre: Table, i: int, c: Seq<i32>, h: u32)
        requires
            pre.wf(),
            0 <= i < pre.entries@.len(),
            pre.entries@[i].code@ == c,
            self.entries@.len() == pre.entries@.len(),
            self.entries@[i].code == pre.entries@[i].code,
            self.entries@[i].bucket.wf(),
            self.entries@[i].bucket@ == pre.entries@[i].bucket@.remove(h),
            forall|k: int|
                0 <= k < pre.entries@.len() && k != i ==> self.entries@[k] == pre.entries@[k],
        ensures
            self.wf(),
            self.has_code(c),
            self.bucket_of(c) == pre.bucket_of(c).remove(h),
            forall|c2: Seq<i32>|
                #![trigger self.has_code(c2)]
                #![trigger pre.has_code(c2)]
                c2 != c ==> self.has_code(c2) == pre.has_code(c2),
            forall|c2: Seq<i32>|
                #![trigger self.bucket_of(c2)]
                #![trigger pre.bucket_of(c2)]
                c2 != c ==> self.bucket_of(c2) == pre.bucket_of(c2),
            forall|n: int|
                pre.handles_below(n) ==> #[trigger] self.handles_below(n),
    {
        assert(forall|k: int|
            0 <= k < self.entries@.len() ==> (#[trigger] self.entries@[k]).code
                == pre.entries@[k].code);
        assert forall|p: int, q: int|
            0 <= p < q < self.entries@.len() implies self.entries@[p].code@
            != self.entries@[q].code@ by {
            assert(pre.entries@[p].code@ != pre.entries@[q].code@);
        }
        assert forall|k: int|
            0 <= k < self.entries@.len() implies (#[trigger] self.entries@[k]).bucket.wf() by {
            if k != i {
                assert(pre.entries@[k].bucket.wf());
            }
        }
        pre.lemma_index_of(i);
        self.lemma_index_of(i);
        assert forall|c2: Seq<i32>| c2 != c implies #[trigger] self.has_code(c2)
            == pre.has_code(c2) by {
            if self.has_code(c2) {
                let k = choose|k: int|
                    0 <= k < self.entries@.len() && (#[trigger] self.entries@[k]).code@ == c2;
                assert(pre.entries@[k].code@ == c2);
            }
            if pre.has_code(c2) {
                let k = choose|k: int|
                    0 <= k < pre.entries@.len() && (#[trigger] pre.entries@[k]).code@ == c2;
                assert(self.entries@[k].code@ == c2);
            }
        }
        assert forall|c2: Seq<i32>| c2 != c implies #[trigger] self.bucket_of(c2)
            == pre.bucket_of(c2) by {
            if self.has_code(c2) {
                let k = choose|k: int|
                    0 <= k < self.entries@.len() && (#[trigger] self.entries@[k]).code@ == c2;
                assert(pre.entries@[k].code@ == c2);
                self.lemma_index_of(k);
                pre.lemma_index_of(k);
                assert(k != i);
            }
        }
        assert forall|n: int| pre.handles_below(n) implies #[trigger] self.handles_below(n) by {
            assert forall|k: int, x: u32|
                0 <= k < self.entries@.len() && #[trigger] self.entries@[k].bucket@.contains(x)
                implies x < n by {
                if k == i {
                    assert(pre.entries@[k].bucket@.contains(x));
                } else {
                    assert(pre.entries@[k].bucket@.contains(x));
                }
            }
        }
    }
}

/// The mathematical model every storage backend presents: a number of
/// bands, a pool of stored vectors, and the bucket structure over them.
/// The operation contracts of `HashTables` are stated over this model.
pub trait StorageModel: Sized {
    /// The backend's internal invariant; every operation preserves it.
    spec fn wf(&self) -> bool;

    /// The number `L` of bands, fixed at construction.
    spec fn num_bands(&self) -> nat;

    /// The vector pool: the stored vectors, in insertion order, indexed
    /// by handle.
    spec fn stored(&self) -> Seq<Seq<u32>>;

    /// True when a bucket exists for `code` in band `band`.
    spec fn has_bucket(&self, band: int, code: Seq<i32>) -> bool;

    /// The handles stored under `code` in band `band`; the empty set
    /// when no bucket exists.
    spec fn bucket(&self, band: int, code: Seq<i32>) -> Set<u32>;
}

/// The storage contract: `L` independent band tables over one shared
/// vector pool.  Any backend satisfying these contracts can stand in
/// for the in-memory one without touching the callers.
pub trait HashTables: StorageModel {
    /// Appends `d` to the pool, minting a fresh handle, and inserts the
    /// handle into the bucket for `hash` within band `hash_table`,
    /// creating the bucket if absent.  Fails exactly on a band index
    /// outside `[0, L)`.
    fn put(&mut self, hash: HashCode, d: DataPoint, hash_table: usize) -> (r: Result<
        u32,
        HashTableError,
    >)
        requires
            old(self).wf(),
            old(self).stored().len() < u32::MAX,
        ensures
            final(self).wf(),
            put_outcome(
                *old(self),
                *final(self),
                hash@,
                d@,
                hash_table as int,
                r,
            ),
    ;

    /// Removes the handle of the first stored vector equal to `d` from
    /// the bucket for `hash` within band `hash_table`.  The pool itself
    /// never shrinks: deletion is purely logical.  Deleting a vector
    /// that was never stored succeeds and changes nothing; a missing
    /// bucket for a stored vector is `NotFound`; a band index outside
    /// `[0, L)` is `InvalidBand`.
    fn delete(&mut self, hash: HashCode, d: &DataPointSlice, hash_table: usize) -> (r: Result<
        (),
        HashTableError,
    >)
        requires
            old(self).wf(),
        ensures
            final(self).wf(),
            delete_outcome(
                *old(self),
                *final(self),
                hash@,
                d@,
                hash_table as int,
                r,
            ),
    ;

    /// The whole unscored candidate bucket for `hash` within band
    /// `hash_table`; `NotFound` when no bucket exists, `InvalidBand` on
    /// a band index outside `[0, L)`.
    fn query_bucket(&self, hash: &HashCode, hash_table: usize) -> (r: Result<
        &Bucket,
        HashTableError,
    >)
        requires
            self.wf(),
        ensures
            match r {
                Ok(b) => {
                    &&& hash_table < self.num_bands()
                    &&& self.has_bucket(hash_table as int, hash@)
                    &&& b.wf()
                    &&& b@ == self.bucket(hash_table as int, hash@)
                },
                Err(e) => (e == HashTableError::InvalidBand && hash_table >= self.num_bands()) || (
                e == HashTableError::NotFound && hash_table < self.num_bands() && !self.has_bucket(
                    hash_table as int,
                    hash@,
                )),
            },
    ;

    /// The vector a handle stands for, for downstream scoring.  Handles
    /// minted by `put` stay valid for the lifetime of the store.
    fn idx_to_datapoint(&self, idx: u32) -> (r: &DataPoint)
        requires
            self.wf(),
            idx < self.stored().len(),
        ensures
            r@ == self.stored()[idx as int],
    ;

    /// Pre-allocates pool room for at least `size` vectors.  A pure
    /// performance hint: no handle, vector or bucket changes.
    fn increase_storage(&mut self, size: usize)
        requires
            old(self).wf(),
        ensures
            final(self).wf(),
            storage_unchanged(*old(self), *final(self)),
    ;
}

/// No band's bucket structure differs between `pre` and `post`.
pub open spec fn buckets_unchanged<T: StorageModel>(pre: T, post: T) -> bool {
    &&& forall|b: int, c: Seq<i32>|
        #![trigger post.has_bucket(b, c)]
        #![trigger pre.has_bucket(b, c)]
        post.has_bucket(b, c) == pre.has_bucket(b, c)
    &&& forall|b: int, c: Seq<i32>|
        #![trigger post.bucket(b, c)]
        #![trigger pre.bucket(b, c)]
        post.bucket(b, c) == pre.bucket(b, c)
}

/// Every bucket except the one for `code` in `band` is exactly as it
/// was.
pub open spec fn buckets_unchanged_except<T: StorageModel>(
    pre: T,
    post: T,
    band: int,
    code: Seq<i32>,
) -> bool {
    &&& forall|b: int, c: Seq<i32>|
        #![trigger post.has_bucket(b, c)]
        #![trigger pre.has_bucket(b, c)]
        b != band || c != code ==> post.has_bucket(b, c) == pre.has_bucket(b, c)
    &&& forall|b: int, c: Seq<i32>|
        #![trigger post.bucket(b, c)]
        #![trigger pre.bucket(b, c)]
        b != band || c != code ==> post.bucket(b, c) == pre.bucket(b, c)
}

/// Nothing observable changed: same bands, same pool, same buckets.
pub open spec fn storage_unchanged<T: StorageModel>(pre: T, post: T) -> bool {
    &&& post.num_bands() == pre.num_bands()
    &&& post.stored() == pre.stored()
    &&& buckets_unchanged(pre, post)
}

/// What a successful insertion does: the vector is appended to the
/// pool, its fresh handle is the old pool length, and exactly the
/// bucket for `code` in `band` grows by that handle, coming into
/// existence if it was absent.
pub open spec fn put_effect<T: StorageModel>(
    pre: T,
    post: T,
    code: Seq<i32>,
    d: Seq<u32>,
    band: int,
    h: u32,
) -> bool {
    &&& 0 <= band < pre.num_bands()
    &&& h == pre.stored().len()
    &&& post.num_bands() == pre.num_bands()
    &&& post.stored() == pre.stored().push(d)
    &&& post.has_bucket(band, code)
    &&& post.bucket(band, code) == if pre.has_bucket(band, code) {
        pre.bucket(band, code).insert(h)
    } else {
        Set::<u32>::empty().insert(h)
    }
    &&& buckets_unchanged_except(pre, post, band, code)
}

/// The full outcome of `put`: success with `put_effect` exactly when
/// the band index is in range, the distinct invalid-band failure
/// otherwise, and then nothing changes.
pub open spec fn put_outcome<T: StorageModel>(
    pre: T,
    post: T,
    code: Seq<i32>,
    d: Seq<u32>,
    band: int,
    r: Result<u32, HashTableError>,
) -> bool {
    match r {
        Ok(h) => put_effect(pre, post, code, d, band, h),
        Err(e) => {
            &&& e == HashTableError::InvalidBand
            &&& band >= pre.num_bands()
            &&& storage_unchanged(pre, post)
        },
    }
}

/// The full outcome of `delete`.  The pool never changes.  With the
/// band in range: deleting a vector that was never stored succeeds as a
/// no-op; otherwise the handle of the first matching stored vector
/// leaves the bucket for `code`, if that bucket exists, and a missing
/// bucket is the `NotFound` failure.  A band index out of range is the
/// distinct invalid-band failure.
pub open spec fn delete_outcome<T: StorageModel>(
    pre: T,
    post: T,
    code: Seq<i32>,
    d: Seq<u32>,
    band: int,
    r: Result<(), HashTableError>,
) -> bool {
    &&& post.num_bands() == pre.num_bands()
    &&& post.stored() == pre.stored()
    &&& match r {
        Ok(u) => {
            &&& 0 <= band < pre.num_bands()
            &&& if has_match(pre.stored(), d) {
                &&& pre.has_bucket(band, code)
                &&& post.has_bucket(band, code)
                &&& forall|i: int|
                    is_first_match(pre.stored(), d, i) ==> post.bucket(band, code) == pre.bucket(
                        band,
                        code,
                    ).remove(i as u32)
                &&& buckets_unchanged_except(pre, post, band, code)
            } else {
                buckets_unchanged(pre, post)
            }
        },
        Err(e) => {
            &&& buckets_unchanged(pre, post)
            &&& ((e == HashTableError::InvalidBand && band >= pre.num_bands()) || (e
                == HashTableError::NotFound && 0 <= band < pre.num_bands() && has_match(
                pre.stored(),
                d,
            ) && !pre.has_bucket(band, code)))
        },
    }
}

/// The in-memory backend: `L` band tables and the shared vector pool.
pub struct MemoryTable {
    hash_tables: Vec<Table>,
    n_hash_tables: usize,
    vec_store: VecStore,
}

impl MemoryTable {
    /// A store with `n_hash_tables` empty bands and an empty pool.
    pub fn new(n_hash_tables: usize) -> (r: MemoryTable)
        ensures
            r.wf(),
            r.num_bands() == n_hash_tables,
            r.stored() == Seq::<Seq<u32>>::empty(),
            forall|b: int, c: Seq<i32>| !(#[trigger] r.has_bucket(b, c)),
    {
        let mut hash_tables: Vec<Table> = Vec::new();
        for i in 0..n_hash_tables
            invariant
                hash_tables@.len() == i,
                forall|k: int| 0 <= k < i ==> (#[trigger] hash_tables@[k]).wf(),
                forall|k: int, c: Seq<i32>|
                    0 <= k < i ==> !(#[trigger] hash_tables@[k].has_code(c)),
                forall|k: int, n: int| 0 <= k < i ==> #[trigger] hash_tables@[k].handles_below(n),
        {
            hash_tables.push(Table::new());
        }
        let vec_store = VecStore::new();
        MemoryTable { hash_tables, n_hash_tables, vec_store }
    }
}

impl StorageModel for MemoryTable {
    closed spec fn wf(&self) -> bool {
        &&& self.n_hash_tables == self.hash_tables@.len()
        &&& self.vec_store@.len() <= u32::MAX
        &&& forall|b: int| 0 <= b < self.hash_tables@.len() ==> (#[trigger] self.hash_tables@[b]).wf()
        &&& forall|b: int|
            0 <= b < self.hash_tables@.len() ==> (#[trigger] self.hash_tables@[b]).handles_below(
                self.vec_store@.len() as int,
            )
    }

    closed spec fn num_bands(&self) -> nat {
        self.hash_tables@.len()
    }

    closed spec fn stored(&self) -> Seq<Seq<u32>> {
        self.vec_store@
    }

    closed spec fn has_bucket(&self, band: int, code: Seq<i32>) -> bool {
        0 <= band < self.hash_tables@.len() && self.hash_tables@[band].has_code(code)
    }

    closed spec fn bucket(&self, band: int, code: Seq<i32>) -> Set<u32> {
        if 0 <= band < self.hash_tables@.len() {
            self.hash_tables@[band].bucket_of(code)
        } else {
            Set::<u32>::empty()
        }
    }
}

impl HashTables for MemoryTable {
    fn put(&mut self, hash: HashCode, d: DataPoint, hash_table: usize) -> (r: Result<
        u32,
        HashTableError,
    >) {
        if hash_table >= self.hash_tables.len() {
            return Err(HashTableError::InvalidBand);
        }
        let idx = self.vec_store.push(d);
        let tbl = &mut self.hash_tables[hash_table];
        tbl.insert_handle(hash, idx);
        proof {
            let pre = *old(self);
            let ht = hash_table as int;
            assert forall|b: int|
                0 <= b < self.hash_tables@.len() && b != ht implies self.hash_tables@[b]
                == pre.hash_tables@[b] by {}
            assert forall|b: int|
                0 <= b < self.hash_tables@.len() implies (#[trigger] self.hash_tables@[b]).wf()
                && self.hash_tables@[b].handles_below(self.vec_store@.len() as int) by {
                if b != ht {
                    assert(pre.hash_tables@[b].wf());
                    assert(pre.hash_tables@[b].handles_below(pre.vec_store@.len() as int));
                    pre.hash_tables@[b].lemma_handles_below_mono(
                        pre.vec_store@.len() as int,
                        self.vec_store@.len() as int,
                    );
                } else {
                    assert(pre.hash_tables@[ht].handles_below(pre.vec_store@.len() as int));
                    pre.hash_tables@[ht].lemma_handles_below_mono(
                        pre.vec_store@.len() as int,
                        self.vec_store@.len() as int,
                    );
                }
            }
            assert(self.wf());
            assert forall|b: int, c: Seq<i32>|
                b != ht || c != hash@ implies #[trigger] self.has_bucket(b, c)
                == pre.has_bucket(b, c) by {
                if 0 <= b < self.hash_tables@.len() && b == ht {
                    assert(self.hash_tables@[b].has_code(c) == pre.hash_tables@[b].has_code(c));
                }
            }
            assert forall|b: int, c: Seq<i32>|
                b != ht || c != hash@ implies #[trigger] self.bucket(b, c) == pre.bucket(
                b,
                c,
            ) by {
                if 0 <= b < self.hash_tables@.len() && b == ht {
                    assert(self.hash_tables@[b].bucket_of(c) == pre.hash_tables@[b].bucket_of(c));
                }
            }
            assert(put_effect(pre, *self, hash@, d@, ht, idx));
        }
        Ok(idx)
    }

    fn delete(&mut self, hash: HashCode, d: &DataPointSlice, hash_table: usize) -> (r: Result<
        (),
        HashTableError,
    >) {
        if hash_table >= self.hash_tables.len() {
            return Err(HashTableError::InvalidBand);
        }
        let idx = match self.vec_store.position(d) {
            None => {
                return Ok(());
            },
            Some(idx) => idx,
        };
        let tbl = &mut self.hash_tables[hash_table];
        let found = tbl.remove_handle(&hash, idx);
        proof {
            let pre = *old(self);
            let ht = hash_table as int;
            assert forall|b: int|
                0 <= b < self.hash_tables@.len() && b != ht implies self.hash_tables@[b]
                == pre.hash_tables@[b] by {}
            assert forall|b: int|
                0 <= b < self.hash_tables@.len() implies (#[trigger] self.hash_tables@[b]).wf()
                && self.hash_tables@[b].handles_below(self.vec_store@.len() as int) by {
                if b != ht {
                    assert(pre.hash_tables@[b].wf());
                    assert(pre.hash_tables@[b].handles_below(pre.vec_store@.len() as int));
                } else {
                    assert(pre.hash_tables@[ht].handles_below(pre.vec_store@.len() as int));
                }
            }
            assert(self.wf());
            assert forall|b: int, c: Seq<i32>|
                b != ht || c != hash@ implies #[trigger] self.has_bucket(b, c)
                == pre.has_bucket(b, c) by {
                if 0 <= b < self.hash_tables@.len() && b == ht {
                    assert(self.hash_tables@[b].has_code(c) == pre.hash_tables@[b].has_code(c));
                }
            }
            assert forall|b: int, c: Seq<i32>|
                b != ht || c != hash@ implies #[trigger] self.bucket(b, c) == pre.bucket(
                b,
                c,
            ) by {
                if 0 <= b < self.hash_tables@.len() && b == ht {
                    assert(self.hash_tables@[b].bucket_of(c) == pre.hash_tables@[b].bucket_of(c));
                }
            }
            if found {
                assert forall|i: int| is_first_match(pre.stored(), d@, i) implies self.bucket(
                    ht,
                    hash@,
                ) == pre.bucket(ht, hash@).remove(i as u32) by {
                    lemma_first_match_unique(pre.stored(), d@, i, idx as int);
                    assert(i as u32 == idx);
                }
            }
        }
        if found {
            Ok(())
        } else {
            Err(HashTableError::NotFound)
        }
    }

    fn query_bucket(&self, hash: &HashCode, hash_table: usize) -> (r: Result<
        &Bucket,
        HashTableError,
    >) {
        if hash_table >= self.hash_tables.len() {
            return Err(HashTableError::InvalidBand);
        }
        let tbl = &self.hash_tables[hash_table];
        match tbl.get_bucket(hash) {
            Some(b) => Ok(b),
            None => Err(HashTableError::NotFound),
        }
    }

    fn idx_to_datapoint(&self, idx: u32) -> (r: &DataPoint) {
        self.vec_store.get(idx)
    }

    fn increase_storage(&mut self, size: usize) {
        self.vec_store.increase_storage(size);
    }
}

/// Law: the handle minted by an insertion resolves to the inserted
/// vector.  Together with the contract of `idx_to_datapoint`, this says
/// that after `put` returns `Ok(h)`, resolving `h` yields exactly the
/// vector that was put, in every band and under every code.
pub proof fn lemma_put_then_resolve<T: StorageModel>(
    pre: T,
    post: T,
    code: Seq<i32>,
    d: Seq<u32>,
    band: int,
    h: u32,
)
    requires
        put_effect(pre, post, code, d, band, h),
    ensures
        (h as int) < post.stored().len(),
        post.stored()[h as int] == d,
{
}

/// Law: handles are minted in strictly increasing order, so no two
/// insertions ever return the same handle, across all bands and codes.
/// The pool never shrinks, so the premise that the second insertion
/// starts from a pool at least as long as the first left behind holds
/// across any run of storage operations between the two.
pub proof fn lemma_put_handles_increase<T: StorageModel>(
    pre1: T,
    post1: T,
    code1: Seq<i32>,
    d1: Seq<u32>,
    band1: int,
    h1: u32,
    pre2: T,
    post2: T,
    code2: Seq<i32>,
    d2: Seq<u32>,
    band2: int,
    h2: u32,
)
    requires
        put_effect(pre1, post1, code1, d1, band1, h1),
        put_effect(pre2, post2, code2, d2, band2, h2),
        post1.stored().len() <= pre2.stored().len(),
    ensures
        h1 < h2,
{
}

/// Law: deleting a vector that was never stored is an idempotent
/// no-op.  With the band in range, `delete` reports success and leaves
/// every bucket and the whole pool exactly as they were.
pub proof fn lemma_delete_absent_vector<T: StorageModel>(
    pre: T,
    post: T,
    code: Seq<i32>,
    d: Seq<u32>,
    band: int,
    r: Result<(), HashTableError>,
)
    requires
        0 <= band < pre.num_bands(),
        !has_match(pre.stored(), d),
        delete_outcome(pre, post, code, d, band, r),
    ensures
        r == Ok::<(), HashTableError>(()),
        storage_unchanged(pre, post),
{
    match r {
        Ok(u) => {
        },
        Err(e) => {
            assert(e != HashTableError::InvalidBand);
            assert(e != HashTableError::NotFound);
            assert(false);
        },
    }
}

/// Law: deletion is purely logical.  Whatever `delete` returns, the
/// pool is unchanged, so every handle still resolves to the same
/// vector as before; in particular a successfully deleted vector is
/// still there under its old handle.
pub proof fn lemma_delete_preserves_pool<T: StorageModel>(
    pre: T,
    post: T,
    code: Seq<i32>,
    d: Seq<u32>,
    band: int,
    r: Result<(), HashTableError>,
    h: u32,
)
    requires
        delete_outcome(pre, post, code, d, band, r),
        (h as int) < pre.stored().len(),
    ensures
        post.stored().len() == pre.stored().len(),
        post.stored()[h as int] == pre.stored()[h as int],
{
}

/// Law: a bucket outlives the removal of its last member.  Insert a
/// fresh vector under a code with no bucket yet, then delete it again:
/// the bucket still exists and is empty, so a query finds an empty
/// candidate set rather than no bucket at all.
pub proof fn lemma_bucket_survives_emptying<T: StorageModel>(
    s0: T,
    s1: T,
    s2: T,
    code: Seq<i32>,
    d: Seq<u32>,
    band: int,
    h: u32,
)
    requires
        !has_match(s0.stored(), d),
        !s0.has_bucket(band, code),
        put_effect(s0, s1, code, d, band, h),
        delete_outcome(s1, s2, code, d, band, Ok(())),
    ensures
        s2.has_bucket(band, code),
        s2.bucket(band, code) == Set::<u32>::empty(),
{
    assert(s1.stored()[h as int] == d);
    assert(has_match(s1.stored(), d));
    assert(is_first_match(s1.stored(), d, h as int)) by {
        assert forall|j: int| 0 <= j < h as int implies s1.stored()[j] != d by {
            assert(s1.stored()[j] == s0.stored()[j]);
        }
    }
    assert(s1.bucket(band, code) == Set::<u32>::empty().insert(h));
    assert(s2.bucket(band, code) == s1.bucket(band, code).remove(h as u32));
    assert(s2.bucket(band, code) =~= Set::<u32>::empty());
}

} // verus!
