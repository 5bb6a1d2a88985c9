//! The vector pool: an append-only store of vectors addressed by dense,
//! stable `u32` handles.
//!
//! A vector is a sequence of exact 32-bit component values; equality of
//! vectors is strict componentwise equality.  A front end that works with
//! floating-point components converts each component to its bit pattern
//! before it reaches this crate, so that equality stays exact here.

use vstd::prelude::*;

verus! {

/// A stored vector: its components as exact 32-bit values.
pub type DataPoint = Vec<u32>;

/// A borrowed view of a vector's components.
pub type DataPointSlice = [u32];

/// True when `d` occurs somewhere in the pool `s`.
pub open spec fn has_match(s: Seq<Seq<u32>>, d: Seq<u32>) -> bool {
    exists|i: int| 0 <= i < s.len() && s[i] == d
}

/// True when `i` is the first position of `d` in the pool `s`.
pub open spec fn is_first_match(s: Seq<Seq<u32>>, d: Seq<u32>, i: int) -> bool {
    &&& 0 <= i < s.len()
    &&& s[i] == d
    &&& forall|j: int| 0 <= j < i ==> s[j] != d
}

/// The first position of `d` in `s` is unique.
pub proof fn lemma_first_match_unique(s: Seq<Seq<u32>>, d: Seq<u32>, i: int, j: int)
    requires
        is_first_match(s, d, i),
        is_first_match(s, d, j),
    ensures
        i == j,
{
    if i < j {
        assert(s[i] != d);
    } else if j < i {
        assert(s[j] != d);
    }
}

/// Componentwise equality of a stored vector and a queried one.
pub fn all_eq(a: &DataPoint, b: &DataPointSlice) -> (r: bool)
    ensures
        r == (a@ == b@),
{
    if a.len() != b.len() {
        return false;
    }
    for i in 0..a.len()
        invariant
            a@.len() == b@.len(),
            forall|j: int| 0 <= j < i ==> a@[j] == b@[j],
    {
        if a[i] != b[i] {
            return false;
        }
    }
    proof {
        assert(a@ =~= b@);
    }
    true
}

/// Append-only vector storage.  Handles handed out by `push` index into
/// it forever: nothing is ever removed or moved.
pub struct VecStore {
    map: Vec<DataPoint>,
}

impl View for VecStore {
    type V = Seq<Seq<u32>>;

    closed spec fn view(&self) -> Seq<Seq<u32>> {
        Seq::new(self.map@.len(), |i: int| self.map@[i]@)
    }
}

impl VecStore {
    /// An empty pool.
    pub fn new() -> (r: VecStore)
        ensures
            r@ == Seq::<Seq<u32>>::empty(),
    {
        let r = VecStore { map: Vec::new() };
        proof {
            assert(r@ =~= Seq::<Seq<u32>>::empty());
        }
        r
    }

    /// Appends a vector and mints its handle: the previous length of the
    /// pool.  Identical content is not deduplicated; appending the same
    /// values twice yields two distinct handles.
    pub fn push(&mut self, d: DataPoint) -> (idx: u32)
        requires
            old(self)@.len() < u32::MAX,
        ensures
            final(self)@ == old(self)@.push(d@),
            idx == old(self)@.len(),
    {
        let idx = self.map.len();
        self.map.push(d);
        proof {
            assert(self@ =~= old(self)@.push(d@));
        }
        idx as u32
    }

    /// Linear scan for the first stored vector that equals `d`
    /// componentwise.
    pub fn position(&self, d: &DataPointSlice) -> (r: Option<u32>)
        requires
            self@.len() <= u32::MAX,
        ensures
            match r {
                Some(idx) => is_first_match(self@, d@, idx as int),
                None => !has_match(self@, d@),
            },
    {
        for i in 0..self.map.len()
            invariant
                self@.len() == self.map@.len(),
                self@.len() <= u32::MAX,
                forall|j: int| 0 <= j < i ==> self@[j] != d@,
    {
            proof {
                assert(self@[i as int] == self.map@[i as int]@);
            }
            if all_eq(&self.map[i], d) {
                return Some(i as u32);
            }
        }
        None
    }

    /// The vector a handle stands for.  Handles minted by `push` stay
    /// valid for the lifetime of the pool.
    pub fn get(&self, idx: u32) -> (r: &DataPoint)
        requires
            idx < self@.len(),
        ensures
            r@ == self@[idx as int],
    {
        &self.map[idx as usize]
    }

    /// Pre-allocates room for at least `size` vectors.  A pure
    /// performance hint: the stored contents do not change, and when
    /// the pool can already hold `size` vectors the reservation is a
    /// no-op.
    pub fn increase_storage(&mut self, size: usize)
        ensures
            final(self)@ == old(self)@,
    {
        let len = self.map.len();
        if len < size {
            let diff = size - len;
            self.map.reserve(diff);
        }
        proof {
            assert(self@ =~= old(self)@);
        }
    }
}

} // verus!
