//! Unary and disjoint ranges.
//!
//! A [`UnaryRange`] is one contiguous run of values, `low` and `high`
//! included. A [`DisjointRange`] is a run of such ranges with gaps between
//! them: each one ends more than one step before the next one begins, so
//! that two ranges that touch or overlap are always held as one.
//!
//! ```text
//!  |--------|  |-|  |-------|
//! low     high l h low    high
//! ```
//!
//! The model of a range is the set of positions (see [`Bounded::rank`]) it
//! covers, and the model of a well-formed disjoint range is the one
//! normalized sequence of unary ranges that covers a given set.
use crate::lemmas::{
    lemma_cover_concat, lemma_cover_elements, lemma_cover_small, lemma_insert_contains,
    lemma_meld_step, lemma_normal_form_of, lemma_prefix_contains, lemma_replace_one,
};
use crate::traits::{Bounded, Stepped, bounded_max, bounded_min};
use vstd::prelude::*;

verus! {

/// A single contiguous range of values, both ends included
#[derive(Copy, Clone, Debug, PartialEq, Eq)]
pub struct UnaryRange<T> {
    pub low: T,
    pub high: T,
}

impl<T: Bounded> UnaryRange<T> {
    /// Position of the low end
    pub open spec fn lo(self) -> int {
        self.low.rank()
    }

    /// Position of the high end
    pub open spec fn hi(self) -> int {
        self.high.rank()
    }

    /// The low end does not come after the high end
    pub open spec fn valid(self) -> bool {
        self.lo() <= self.hi()
    }

    /// The range holds the value at position `v`
    pub open spec fn spans(self, v: int) -> bool {
        self.lo() <= v <= self.hi()
    }

    /// The positions the range holds
    pub open spec fn values(self) -> Set<int> {
        Set::new(|v: int| self.spans(v))
    }
}

/// Every range of `s` has its low end at or before its high end
pub open spec fn all_valid<T: Bounded>(s: Seq<UnaryRange<T>>) -> bool {
    forall|i: int| 0 <= i < s.len() ==> (#[trigger] s[i]).valid()
}

/// The ranges of `s` come in ascending order of their low ends
pub open spec fn sorted_by_low<T: Bounded>(s: Seq<UnaryRange<T>>) -> bool {
    forall|i: int, j: int| 0 <= i < j < s.len() ==> (#[trigger] s[i]).lo() <= (#[trigger] s[j]).lo()
}

/// The three invariants of a disjoint range: sorted by low end, pairwise
/// apart, and more than one step apart, so that no two could be melded
pub open spec fn normalized<T: Bounded>(s: Seq<UnaryRange<T>>) -> bool {
    &&& all_valid(s)
    &&& forall|i: int, j: int|
        0 <= i < j < s.len() ==> (#[trigger] s[i]).hi() + 1 < (#[trigger] s[j]).lo()
}

/// Some range of `s` holds the value at position `v`
pub open spec fn covers<T: Bounded>(s: Seq<UnaryRange<T>>, v: int) -> bool {
    exists|i: int| 0 <= i < s.len() && (#[trigger] s[i]).spans(v)
}

/// The positions that the ranges of `s` hold together
pub open spec fn cover<T: Bounded>(s: Seq<UnaryRange<T>>) -> Set<int> {
    Set::new(|v: int| covers(s, v))
}

/// Every position of the domain of `T`
pub open spec fn domain<T: Bounded>() -> Set<int> {
    Set::new(|v: int| T::min_rank() <= v <= T::max_rank())
}

/// The normalized sequence of ranges that covers `vals`; for every set of
/// positions of the domain there is exactly one
pub open spec fn normal_form<T: Bounded>(vals: Set<int>) -> Seq<UnaryRange<T>> {
    choose|r: Seq<UnaryRange<T>>| normalized(r) && cover(r) == vals
}

impl<T: Stepped> UnaryRange<T> {
    /// Create a new range from `low` and `high`, or `None` where `low`
    /// comes after `high`
    pub fn new(low: T, high: T) -> (r: Option<Self>)
        ensures
            r.is_some() == (low.rank() <= high.rank()),
            r matches Some(u) ==> u.low == low && u.high == high,
    {
        if low.not_after(&high) {
            Some(UnaryRange { low, high })
        } else {
            None
        }
    }

    /// Create a new range from `low` and `high` without checking them;
    /// the operations that take a range ask for `low` not to come after
    /// `high`
    pub fn new_unchecked(low: T, high: T) -> (r: Self)
        ensures
            r.low == low,
            r.high == high,
    {
        UnaryRange { low, high }
    }

    /// Whether `val` lies within the range
    pub fn contains(&self, val: &T) -> (r: bool)
        ensures
            r == (self.lo() <= val.rank() && val.rank() <= self.hi()),
    {
        self.low.not_after(val) && val.not_after(&self.high)
    }

    /// This range without the values of `other`: the range itself where the
    /// two do not meet, `None` where `other` covers it, else the one or two
    /// pieces that `other` leaves, in ascending order
    pub fn without(self, other: Self) -> (r: Option<Vec<Self>>)
        requires
            self.valid(),
            other.valid(),
        ensures
            r.is_none() == (other.lo() <= self.lo() && self.hi() <= other.hi()),
            r.is_none() ==> self.values().difference(other.values()) == Set::<int>::empty(),
            r matches Some(pieces) ==> {
                &&& normalized(pieces@)
                &&& cover(pieces@) == self.values().difference(other.values())
            },
            other.hi() < self.lo() || self.hi() < other.lo() ==> (r matches Some(pieces)
                && pieces@ == seq![self]),
            self.lo() < other.lo() <= self.hi() <= other.hi() ==> (r matches Some(pieces)
                && pieces@.len() == 1 && pieces@[0].low == self.low && pieces@[0].hi()
                == other.lo() - 1),
            other.lo() <= self.lo() <= other.hi() < self.hi() ==> (r matches Some(pieces)
                && pieces@.len() == 1 && pieces@[0].lo() == other.hi() + 1 && pieces@[0].high
                == self.high),
            self.lo() < other.lo() && other.hi() < self.hi() ==> (r matches Some(pieces)
                && pieces@.len() == 2 && pieces@[0].low == self.low && pieces@[0].hi()
                == other.lo() - 1 && pieces@[1].lo() == other.hi() + 1 && pieces@[1].high
                == self.high),
    {
        proof {
            T::lemma_rank_bounds(self.low);
            T::lemma_rank_bounds(self.high);
        }
        if !self.low.not_after(&other.high) || !other.low.not_after(&self.high) {
            let r = vec![self];
            proof {
                lemma_cover_small(self, self);
                assert(cover(r@) =~= self.values().difference(other.values()));
            }
            Some(r)
        } else if other.low.not_after(&self.low) && self.high.not_after(&other.high) {
            proof {
                assert(self.values().difference(other.values()) =~= Set::<int>::empty());
            }
            None
        } else if self.high.not_after(&other.high) {
            let piece = UnaryRange { low: self.low, high: other.low.decrement() };
            let r = vec![piece];
            proof {
                lemma_cover_small(piece, piece);
                assert(cover(r@) =~= self.values().difference(other.values()));
            }
            Some(r)
        } else if other.low.not_after(&self.low) {
            let piece = UnaryRange { low: other.high.increment(), high: self.high };
            let r = vec![piece];
            proof {
                lemma_cover_small(piece, piece);
                assert(cover(r@) =~= self.values().difference(other.values()));
            }
            Some(r)
        } else {
            let below = UnaryRange { low: self.low, high: other.low.decrement() };
            let above = UnaryRange { low: other.high.increment(), high: self.high };
            let r = vec![below, above];
            proof {
                lemma_cover_small(below, above);
                assert(cover(r@) =~= self.values().difference(other.values()));
            }
            Some(r)
        }
    }

    /// The one or two ranges that cover the domain but for this range
    fn complement_ranges(self) -> (r: Vec<Self>)
        requires
            self.valid(),
        ensures
            normalized(r@),
            cover(r@) == domain::<T>().difference(self.values()),
    {
        proof {
            T::lemma_rank_bounds(self.low);
            T::lemma_rank_bounds(self.high);
        }
        let at_min = self.low.not_after(&bounded_min());
        let at_max = bounded_max::<T>().not_after(&self.high);
        let ghost rest = domain::<T>().difference(self.values());
        if at_min && at_max {
            let r: Vec<Self> = Vec::new();
            proof {
                lemma_cover_small(self, self);
                assert(cover(r@) =~= rest);
            }
            r
        } else if at_min {
            let above = UnaryRange { low: self.high.increment(), high: bounded_max() };
            let r = vec![above];
            proof {
                lemma_cover_small(above, above);
                assert(cover(r@) =~= rest);
            }
            r
        } else if at_max {
            let below = UnaryRange { low: bounded_min(), high: self.low.decrement() };
            let r = vec![below];
            proof {
                lemma_cover_small(below, below);
                assert(cover(r@) =~= rest);
            }
            r
        } else {
            let below = UnaryRange { low: bounded_min(), high: self.low.decrement() };
            let above = UnaryRange { low: self.high.increment(), high: bounded_max() };
            let r = vec![below, above];
            proof {
                lemma_cover_small(below, above);
                assert(cover(r@) =~= rest);
            }
            r
        }
    }

    /// Every value of the domain that this range leaves out, or `None`
    /// where it leaves out none
    pub fn complement(self) -> (r: Option<DisjointRange<T>>)
        requires
            self.valid(),
        ensures
            r.is_none() == (self.lo() == T::min_rank() && self.hi() == T::max_rank()),
            r matches Some(d) ==> {
                &&& d.ranges@ == normal_form::<T>(domain::<T>().difference(self.values()))
                &&& normalized(d.ranges@)
                &&& cover(d.ranges@) == domain::<T>().difference(self.values())
            },
    {
        let pieces = self.complement_ranges();
        proof {
            lemma_normal_form_of(pieces@);
            T::lemma_rank_bounds(self.low);
            T::lemma_rank_bounds(self.high);
            if pieces@.len() == 0 {
                assert(!cover(pieces@).contains(T::min_rank()));
                assert(!cover(pieces@).contains(T::max_rank()));
            } else {
                assert(pieces@[0].spans(pieces@[0].lo()));
                assert(cover(pieces@).contains(pieces@[0].lo()));
            }
        }
        if pieces.len() > 0 {
            Some(DisjointRange::from_ranges(pieces))
        } else {
            None
        }
    }
}

/// A range with gaps: unary ranges in ascending order, each ending more
/// than one step before the next begins
#[derive(Clone, Debug)]
pub struct DisjointRange<T> {
    pub ranges: Vec<UnaryRange<T>>,
}

impl<T: Stepped> DisjointRange<T> {
    /// Create a range of one contiguous run from `low` to `high`, or `None`
    /// where `low` comes after `high`
    pub fn new_single_range(low: T, high: T) -> (r: Option<Self>)
        ensures
            r.is_some() == (low.rank() <= high.rank()),
            r matches Some(d) ==> d.ranges@ == seq![UnaryRange { low, high }],
    {
        match UnaryRange::new(low, high) {
            Some(u) => Some(DisjointRange { ranges: vec![u] }),
            None => None,
        }
    }

    /// Create a range of one contiguous run from `low` to `high` without
    /// checking them
    pub fn new_single_range_unchecked(low: T, high: T) -> (r: Self)
        ensures
            r.ranges@ == seq![UnaryRange { low, high }],
    {
        DisjointRange { ranges: vec![UnaryRange::new_unchecked(low, high)] }
    }

    /// Create a range that holds `ranges` as they are, neither sorted nor
    /// melded
    pub fn from_ranges(ranges: Vec<UnaryRange<T>>) -> (r: Self)
        ensures
            r.ranges@ == ranges@,
    {
        DisjointRange { ranges }
    }

    /// Create a range from `(low, high)` pairs as they are, neither checked,
    /// sorted nor melded
    pub fn from_bounds_unchecked(bounds: Vec<(T, T)>) -> (r: Self)
        ensures
            r.ranges@.len() == bounds@.len(),
            forall|i: int|
                0 <= i < bounds@.len() ==> (#[trigger] r.ranges@[i]).low == bounds@[i].0
                    && r.ranges@[i].high == bounds@[i].1,
    {
        let mut ranges: Vec<UnaryRange<T>> = Vec::new();
        let mut i: usize = 0;
        while i < bounds.len()
            invariant
                i <= bounds@.len(),
                ranges@.len() == i,
                forall|k: int|
                    0 <= k < i ==> (#[trigger] ranges@[k]).low == bounds@[k].0
                        && ranges@[k].high == bounds@[k].1,
            decreases bounds@.len() - i,
        {
            let (low, high) = bounds[i];
            ranges.push(UnaryRange::new_unchecked(low, high));
            i += 1;
        }
        DisjointRange { ranges }
    }

    /// Create a range from `(low, high)` pairs as they are, neither sorted
    /// nor melded, or `None` where the low end of a pair comes after its
    /// high end
    pub fn from_bounds(bounds: Vec<(T, T)>) -> (r: Option<Self>)
        ensures
            r.is_some() == (forall|i: int|
                0 <= i < bounds@.len() ==> (#[trigger] bounds@[i]).0.rank() <= bounds@[i].1.rank()),
            r matches Some(d) ==> {
                &&& d.ranges@.len() == bounds@.len()
                &&& forall|i: int|
                    0 <= i < bounds@.len() ==> (#[trigger] d.ranges@[i]).low == bounds@[i].0
                        && d.ranges@[i].high == bounds@[i].1
            },
    {
        let mut ranges: Vec<UnaryRange<T>> = Vec::new();
        let mut i: usize = 0;
        while i < bounds.len()
            invariant
                i <= bounds@.len(),
                ranges@.len() == i,
                forall|k: int|
                    0 <= k < i ==> (#[trigger] ranges@[k]).low == bounds@[k].0
                        && ranges@[k].high == bounds@[k].1,
                forall|k: int| 0 <= k < i ==> (#[trigger] bounds@[k]).0.rank() <= bounds@[k].1.rank(),
            decreases bounds@.len() - i,
        {
            let (low, high) = bounds[i];
            match UnaryRange::new(low, high) {
                Some(u) => ranges.push(u),
                None => {
                    assert(!(bounds@[i as int].0.rank() <= bounds@[i as int].1.rank()));
                    return None;
                },
            }
            i += 1;
        }
        Some(DisjointRange { ranges })
    }

    /// Create a range that holds nothing
    pub fn empty() -> (r: Self)
        ensures
            r.ranges@ == Seq::<UnaryRange<T>>::empty(),
    {
        DisjointRange { ranges: Vec::new() }
    }

    /// Create a range that holds every value of the domain
    pub fn entire() -> (r: Self)
        ensures
            r.ranges@.len() == 1,
            r.ranges@[0].lo() == T::min_rank(),
            r.ranges@[0].hi() == T::max_rank(),
    {
        Self::new_single_range_unchecked(bounded_min(), bounded_max())
    }

    /// Whether some range holds `val`
    pub fn contains(&self, val: T) -> (r: bool)
        ensures
            r == covers(self.ranges@, val.rank()),
    {
        let mut i: usize = 0;
        while i < self.ranges.len()
            invariant
                i <= self.ranges@.len(),
                forall|k: int| 0 <= k < i ==> !(#[trigger] self.ranges@[k]).spans(val.rank()),
            decreases self.ranges@.len() - i,
        {
            if self.ranges[i].contains(&val) {
                return true;
            }
            i += 1;
        }
        false
    }
}

impl<T: Stepped> DisjointRange<T> {
    /// Add every value of `other`, leaving the ranges sorted and melded
    pub fn add_disjoint_range(&mut self, other: DisjointRange<T>)
        requires
            all_valid(old(self).ranges@),
            all_valid(other.ranges@),
        ensures
            final(self).ranges@ == normal_form::<T>(cover(old(self).ranges@).union(cover(other.ranges@))),
            normalized(final(self).ranges@),
            cover(final(self).ranges@) == cover(old(self).ranges@).union(cover(other.ranges@)),
    {
        let mut other = other;
        proof {
            lemma_cover_concat(self.ranges@, other.ranges@);
        }
        self.ranges.append(&mut other.ranges);
        self.meld();
    }

    /// Add the values of `to_add`, leaving the ranges sorted and melded
    pub fn add_unary_range(&mut self, to_add: UnaryRange<T>)
        requires
            all_valid(old(self).ranges@),
            to_add.valid(),
        ensures
            final(self).ranges@ == normal_form::<T>(cover(old(self).ranges@).union(to_add.values())),
            normalized(final(self).ranges@),
            cover(final(self).ranges@) == cover(old(self).ranges@).union(to_add.values()),
    {
        let ghost before = self.ranges@;
        let mut i: usize = 0;
        while i < self.ranges.len() && self.ranges[i].low.not_after(&to_add.low)
            invariant
                i <= self.ranges@.len(),
                self.ranges@ == before,
            decreases self.ranges@.len() - i,
        {
            i += 1;
        }
        self.ranges.insert(i, to_add);
        proof {
            lemma_cover_small(to_add, to_add);
            lemma_cover_concat(before, seq![to_add]);
            let joined = before + seq![to_add];
            assert(before.insert(before.len() as int, to_add) =~= joined);
            assert(self.ranges@ == before.insert(i as int, to_add));
            assert forall|x: UnaryRange<T>| joined.contains(x) <==> self.ranges@.contains(x) by {
                lemma_insert_contains(before, before.len() as int, to_add, x);
                lemma_insert_contains(before, i as int, to_add, x);
            }
            lemma_cover_elements(self.ranges@, joined);
            lemma_cover_elements(joined, self.ranges@);
            assert(cover(self.ranges@) =~= cover(before).union(to_add.values()));
        }
        self.meld();
    }

    /// Remove the values of `to_remove`, leaving the ranges sorted and
    /// melded
    pub fn subtract_unary_range(&mut self, to_remove: UnaryRange<T>)
        requires
            normalized(old(self).ranges@),
            to_remove.valid(),
        ensures
            final(self).ranges@ == normal_form::<T>(
                cover(old(self).ranges@).difference(to_remove.values()),
            ),
            normalized(final(self).ranges@),
            cover(final(self).ranges@) == cover(old(self).ranges@).difference(to_remove.values()),
    {
        let ghost before = self.ranges@;
        let ghost gone = to_remove.values();
        let mut i: usize = 0;
        let mut done = false;
        while !done && i < self.ranges.len()
            invariant
                i <= self.ranges@.len(),
                to_remove.valid(),
                gone == to_remove.values(),
                normalized(self.ranges@),
                cover(self.ranges@).difference(gone) == cover(before).difference(gone),
                forall|k: int|
                    0 <= k < i ==> (#[trigger] self.ranges@[k]).hi() < to_remove.lo()
                        || self.ranges@[k].lo() > to_remove.hi(),
                done ==> forall|k: int|
                    i <= k < self.ranges@.len() ==> (#[trigger] self.ranges@[k]).lo()
                        > to_remove.hi(),
            decreases (self.ranges@.len() - i) * 2 + if done {
                0int
            } else {
                1int
            },
        {
            let cur = self.ranges[i];
            let ghost s = self.ranges@;
            proof {
                assert(cur.valid());
            }
            if !cur.low.not_after(&to_remove.high) {
                proof {
                    assert forall|k: int| i <= k < s.len() implies (#[trigger] s[k]).lo()
                        > to_remove.hi() by {
                        if k > i {
                            assert(s[i as int].hi() + 1 < s[k].lo());
                        }
                    }
                }
                done = true;
            } else if !to_remove.low.not_after(&cur.high) {
                i += 1;
            } else {
                match cur.without(to_remove) {
                    None => {
                        proof {
                            lemma_cover_small(cur, cur);
                            assert(cover(Seq::<UnaryRange<T>>::empty()) =~= cur.values().difference(gone));
                            lemma_replace_one(s, i as int, Seq::empty(), gone);
                        }
                        self.ranges.remove(i);
                        proof {
                            assert(self.ranges@ =~= s.subrange(0, i as int) + Seq::empty()
                                + s.subrange(i + 1, s.len() as int));
                        }
                    },
                    Some(pieces) => {
                        proof {
                            lemma_replace_one(s, i as int, pieces@, gone);
                        }
                        if pieces.len() == 1 {
                            self.ranges.set(i, pieces[0]);
                            proof {
                                assert(self.ranges@ =~= s.subrange(0, i as int) + pieces@
                                    + s.subrange(i + 1, s.len() as int));
                            }
                            i += 1;
                        } else {
                            self.ranges.set(i, pieces[0]);
                            self.ranges.insert(i + 1, pieces[1]);
                            let len = self.ranges.len();
                            proof {
                                assert(self.ranges@ =~= s.subrange(0, i as int) + pieces@
                                    + s.subrange(i + 1, s.len() as int));
                                assert forall|k: int| i + 2 <= k < self.ranges@.len() implies (
                                #[trigger] self.ranges@[k]).lo() > to_remove.hi() by {
                                    assert(s[i as int].hi() + 1 < s[k - 1].lo());
                                }
                                assert(i + 2 <= len);
                            }
                            i += 2;
                            done = true;
                        }
                    },
                }
            }
        }
        proof {
            assert forall|v: int| cover(self.ranges@).contains(v) implies !gone.contains(v) by {
                let k = choose|k: int| 0 <= k < self.ranges@.len() && (#[trigger] self.ranges@[k]).spans(v);
            }
            assert(cover(self.ranges@) =~= cover(before).difference(gone));
            lemma_normal_form_of(self.ranges@);
        }
    }

    /// Every value of the domain that this range leaves out
    pub fn complement(self) -> (r: Self)
        requires
            all_valid(self.ranges@),
        ensures
            r.ranges@ == normal_form::<T>(domain::<T>().difference(cover(self.ranges@))),
            normalized(r.ranges@),
            cover(r.ranges@) == domain::<T>().difference(cover(self.ranges@)),
    {
        let mut out = Self::entire();
        proof {
            let whole = out.ranges@[0];
            T::lemma_rank_bounds(whole.low);
            lemma_cover_small(whole, whole);
            assert(cover(self.ranges@.subrange(0, 0)) =~= Set::<int>::empty());
            assert(cover(out.ranges@) =~= domain::<T>().difference(cover(self.ranges@.subrange(0, 0))));
        }
        let mut k: usize = 0;
        while k < self.ranges.len()
            invariant
                k <= self.ranges@.len(),
                all_valid(self.ranges@),
                normalized(out.ranges@),
                cover(out.ranges@) == domain::<T>().difference(
                    cover(self.ranges@.subrange(0, k as int)),
                ),
            decreases self.ranges@.len() - k,
        {
            let r = self.ranges[k];
            proof {
                assert(r.valid());
            }
            out.subtract_unary_range(r);
            proof {
                let p = self.ranges@.subrange(0, k as int);
                assert(self.ranges@.subrange(0, k + 1) =~= p + seq![r]);
                lemma_cover_concat(p, seq![r]);
                lemma_cover_small(r, r);
                assert(cover(out.ranges@) =~= domain::<T>().difference(
                    cover(self.ranges@.subrange(0, k + 1)),
                ));
            }
            k += 1;
        }
        proof {
            assert(self.ranges@.subrange(0, self.ranges@.len() as int) =~= self.ranges@);
            lemma_normal_form_of(out.ranges@);
        }
        out
    }

    /// Sort the ranges by their low ends and meld each pair that overlaps
    /// or lies one step apart
    fn meld(&mut self)
        requires
            all_valid(old(self).ranges@),
        ensures
            final(self).ranges@ == normal_form::<T>(cover(old(self).ranges@)),
            normalized(final(self).ranges@),
            cover(final(self).ranges@) == cover(old(self).ranges@),
    {
        let ghost before = self.ranges@;
        Self::sort_ranges(&mut self.ranges);
        proof {
            lemma_cover_elements(self.ranges@, before);
            lemma_cover_elements(before, self.ranges@);
            assert(cover(self.ranges@) =~= cover(before));
        }
        Self::meld_ranges(&mut self.ranges);
        proof {
            lemma_normal_form_of(self.ranges@);
        }
    }

    /// Put the ranges in ascending order of their low ends, keeping the
    /// order of those that start together
    fn sort_ranges(ranges: &mut Vec<UnaryRange<T>>)
        ensures
            sorted_by_low(final(ranges)@),
            forall|x: UnaryRange<T>| final(ranges)@.contains(x) <==> old(ranges)@.contains(x),
    {
        let mut sorted: Vec<UnaryRange<T>> = Vec::new();
        let mut k: usize = 0;
        while k < ranges.len()
            invariant
                k <= ranges@.len(),
                ranges@ == old(ranges)@,
                sorted_by_low(sorted@),
                forall|x: UnaryRange<T>|
                    sorted@.contains(x) <==> ranges@.subrange(0, k as int).contains(x),
            decreases ranges@.len() - k,
        {
            let item = ranges[k];
            let mut j: usize = sorted.len();
            while j > 0 && !sorted[j - 1].low.not_after(&item.low)
                invariant
                    j <= sorted@.len(),
                    forall|t: int| j <= t < sorted@.len() ==> (#[trigger] sorted@[t]).lo() > item.lo(),
                decreases j,
            {
                j -= 1;
            }
            let ghost prev = sorted@;
            sorted.insert(j, item);
            proof {
                prev.insert_ensures(j as int, item);
                assert(sorted@ == prev.insert(j as int, item));
                assert forall|x: UnaryRange<T>|
                    sorted@.contains(x) <==> ranges@.subrange(0, k + 1).contains(x) by {
                    lemma_insert_contains(prev, j as int, item, x);
                    lemma_prefix_contains(ranges@, k as int, x);
                }
                assert forall|a: int, b: int| 0 <= a < b < sorted@.len() implies (
                #[trigger] sorted@[a]).lo() <= (#[trigger] sorted@[b]).lo() by {
                    if b < j {
                    } else if a < j && b == j {
                        assert(prev[a].lo() <= prev[j - 1].lo());
                    } else if a < j {
                        assert(prev[b - 1].lo() > item.lo());
                    } else if a > j {
                        assert(prev[a - 1].lo() <= prev[b - 1].lo());
                    }
                }
            }
            k += 1;
        }
        proof {
            assert(ranges@.subrange(0, ranges@.len() as int) =~= ranges@);
        }
        *ranges = sorted;
    }

    /// Meld, in a sequence sorted by low ends, each range with the next one
    /// where that one starts no later than one step past its end
    pub fn meld_ranges(ranges: &mut Vec<UnaryRange<T>>)
        requires
            all_valid(old(ranges)@),
            sorted_by_low(old(ranges)@),
        ensures
            normalized(final(ranges)@),
            cover(final(ranges)@) == cover(old(ranges)@),
    {
        let mut i: usize = 0;
        while i < ranges.len() && i < ranges.len() - 1
            invariant
                i <= ranges@.len(),
                ranges@.len() > 0 ==> i < ranges@.len(),
                all_valid(ranges@),
                forall|a: int, b: int|
                    0 <= a < b <= i && b < ranges@.len() ==> (#[trigger] ranges@[a]).hi() + 1
                        < (#[trigger] ranges@[b]).lo(),
                forall|a: int, b: int|
                    i <= a < b < ranges@.len() ==> (#[trigger] ranges@[a]).lo()
                        <= (#[trigger] ranges@[b]).lo(),
                cover(ranges@) == cover(old(ranges)@),
            decreases ranges@.len() - i,
        {
            let cur = ranges[i];
            let next = ranges[i + 1];
            proof {
                T::lemma_rank_bounds(next.low);
                T::lemma_rank_bounds(cur.high);
                assert(cur.valid() && next.valid());
            }
            if next.low.not_after(&cur.high.increment()) {
                let high = if cur.high.not_after(&next.high) {
                    next.high
                } else {
                    cur.high
                };
                let merged = UnaryRange { low: cur.low, high };
                let ghost prev = ranges@;
                proof {
                    lemma_meld_step(prev, i as int, merged);
                }
                ranges.set(i, merged);
                ranges.remove(i + 1);
                proof {
                    let t = prev.update(i as int, merged);
                    assert(ranges@ =~= t.remove(i as int + 1));
                    assert forall|a: int| 0 <= a < ranges@.len() implies (
                    #[trigger] ranges@[a]).valid() by {
                        if a > i {
                            assert(prev[a + 1].valid());
                        } else if a < i {
                            assert(prev[a].valid());
                        }
                    }
                    assert forall|a: int, b: int|
                        0 <= a < b <= i && b < ranges@.len() implies (#[trigger] ranges@[a]).hi()
                        + 1 < (#[trigger] ranges@[b]).lo() by {
                        assert(prev[a].hi() + 1 < prev[b].lo());
                    }
                    assert forall|a: int, b: int|
                        i <= a < b < ranges@.len() implies (#[trigger] ranges@[a]).lo()
                        <= (#[trigger] ranges@[b]).lo() by {
                        if a == i {
                            assert(prev[i as int].lo() <= prev[b + 1].lo());
                        } else {
                            assert(prev[a + 1].lo() <= prev[b + 1].lo());
                        }
                    }
                }
            } else {
                proof {
                    assert forall|a: int, b: int|
                        0 <= a < b <= i + 1 && b < ranges@.len() implies (
                        #[trigger] ranges@[a]).hi() + 1 < (#[trigger] ranges@[b]).lo() by {
                        if b == i + 1 && a < i {
                            assert(ranges@[a].hi() + 1 < ranges@[i as int].lo());
                            assert(ranges@[i as int].lo() <= ranges@[i + 1].lo());
                        }
                    }
                }
                i += 1;
            }
        }
    }
}

} // verus!
