//! A free-list of disjoint numeric intervals used to issue and reclaim unique
//! identifiers. `take_any_one` always hands out the smallest available value;
//! `release_one` returns a value to the pool, merging intervals that would
//! otherwise touch.

use vstd::prelude::*;

verus! {

/// A closed interval `[min, max]` of identifier values.
#[derive(Clone, Copy, Debug)]
pub struct Range {
    min: u32,
    max: u32,
}

impl Range {
    /// The lower bound of the interval.
    pub closed spec fn spec_min(self) -> u32 {
        self.min
    }

    /// The upper bound of the interval.
    pub closed spec fn spec_max(self) -> u32 {
        self.max
    }

    pub fn new(min: u32, max: u32) -> (r: Range)
        ensures
            r.spec_min() == min,
            r.spec_max() == max,
    {
        Range { min, max }
    }
}

/// A value is covered when some interval of `rs` contains it.
spec fn covered(rs: Seq<Range>, v: u32) -> bool {
    exists|i: int| 0 <= i < rs.len() && (#[trigger] rs[i]).min <= v <= rs[i].max
}

/// Every interval is non-empty, and the intervals are sorted with at least one
/// value missing between any two of them.
spec fn rs_wf(rs: Seq<Range>) -> bool {
    &&& forall|i: int| 0 <= i < rs.len() ==> (#[trigger] rs[i]).min <= rs[i].max
    &&& forall|i: int, j: int|
        0 <= i < j < rs.len() ==> (#[trigger] rs[i]).max + 2 <= (#[trigger] rs[j]).min
}

/// The facts the release scan establishes: intervals before `idx` lie entirely
/// below `val`, the interval at `idx` (if any) lies entirely above it.
spec fn release_scan(rs: Seq<Range>, idx: int, val: u32) -> bool {
    &&& rs_wf(rs)
    &&& 0 <= idx <= rs.len()
    &&& forall|i: int| 0 <= i < idx ==> (#[trigger] rs[i]).max < val
    &&& idx < rs.len() ==> rs[idx].min > val
}

proof fn lemma_release_not_covered(rs: Seq<Range>, idx: int, val: u32)
    requires
        release_scan(rs, idx, val),
    ensures
        !covered(rs, val),
{
    assert forall|i: int| 0 <= i < rs.len() implies !((#[trigger] rs[i]).min <= val
        <= rs[i].max) by {
        if i > idx {
            assert(rs[idx].max + 2 <= rs[i].min);
        }
    }
}

proof fn lemma_release_merge_both(rs: Seq<Range>, new_rs: Seq<Range>, idx: int, val: u32)
    requires
        release_scan(rs, idx, val),
        0 < idx < rs.len(),
        rs[idx - 1].max + 1 == val,
        val + 1 == rs[idx].min,
        new_rs == rs.remove(idx).remove(idx - 1).insert(
            idx - 1,
            Range { min: rs[idx - 1].min, max: rs[idx].max },
        ),
    ensures
        rs_wf(new_rs),
        forall|w: u32| covered(new_rs, w) <==> (covered(rs, w) || w == val),
{
    assert(new_rs.len() == rs.len() - 1);
    assert(forall|i: int| 0 <= i < idx - 1 ==> new_rs[i] == rs[i]);
    assert(forall|i: int| idx <= i < new_rs.len() ==> new_rs[i] == rs[i + 1]);
    assert forall|w: u32| covered(new_rs, w) <==> (covered(rs, w) || w == val) by {
        if covered(new_rs, w) {
            let i = choose|i: int|
                0 <= i < new_rs.len() && (#[trigger] new_rs[i]).min <= w <= new_rs[i].max;
            if i == idx - 1 {
                if w < val {
                    assert(rs[idx - 1].min <= w <= rs[idx - 1].max);
                } else if w > val {
                    assert(rs[idx].min <= w <= rs[idx].max);
                }
            }
        }
        if covered(rs, w) {
            let i = choose|i: int| 0 <= i < rs.len() && (#[trigger] rs[i]).min <= w <= rs[i].max;
            if i == idx - 1 || i == idx {
                assert(new_rs[idx - 1].min <= w <= new_rs[idx - 1].max);
            } else if i > idx {
                assert(new_rs[i - 1].min <= w <= new_rs[i - 1].max);
            }
            assert(covered(new_rs, w));
        }
        if w == val {
            assert(new_rs[idx - 1].min <= w <= new_rs[idx - 1].max);
            assert(covered(new_rs, w));
        }
    }
}

proof fn lemma_release_grow_left(rs: Seq<Range>, new_rs: Seq<Range>, idx: int, val: u32)
    requires
        release_scan(rs, idx, val),
        0 < idx,
        rs[idx - 1].max + 1 == val,
        idx < rs.len() ==> val + 1 < rs[idx].min,
        new_rs == rs.remove(idx - 1).insert(idx - 1, Range { min: rs[idx - 1].min, max: val }),
    ensures
        rs_wf(new_rs),
        forall|w: u32| covered(new_rs, w) <==> (covered(rs, w) || w == val),
{
    assert(new_rs.len() == rs.len());
    assert(forall|i: int| 0 <= i < new_rs.len() && i != idx - 1 ==> new_rs[i] == rs[i]);
    assert forall|w: u32| covered(new_rs, w) <==> (covered(rs, w) || w == val) by {
        if covered(new_rs, w) {
            let i = choose|i: int|
                0 <= i < new_rs.len() && (#[trigger] new_rs[i]).min <= w <= new_rs[i].max;
            if i == idx - 1 && w != val {
                assert(rs[idx - 1].min <= w <= rs[idx - 1].max);
            }
        }
        if covered(rs, w) {
            let i = choose|i: int| 0 <= i < rs.len() && (#[trigger] rs[i]).min <= w <= rs[i].max;
            if i == idx - 1 {
                assert(new_rs[idx - 1].min <= w <= new_rs[idx - 1].max);
            }
            assert(covered(new_rs, w));
        }
        if w == val {
            assert(new_rs[idx - 1].min <= w <= new_rs[idx - 1].max);
            assert(covered(new_rs, w));
        }
    }
}

proof fn lemma_release_grow_right(rs: Seq<Range>, new_rs: Seq<Range>, idx: int, val: u32)
    requires
        release_scan(rs, idx, val),
        idx < rs.len(),
        val + 1 == rs[idx].min,
        0 < idx ==> rs[idx - 1].max + 1 < val,
        new_rs == rs.remove(idx).insert(idx, Range { min: val, max: rs[idx].max }),
    ensures
        rs_wf(new_rs),
        forall|w: u32| covered(new_rs, w) <==> (covered(rs, w) || w == val),
{
    assert(new_rs.len() == rs.len());
    assert(forall|i: int| 0 <= i < new_rs.len() && i != idx ==> new_rs[i] == rs[i]);
    assert forall|w: u32| covered(new_rs, w) <==> (covered(rs, w) || w == val) by {
        if covered(new_rs, w) {
            let i = choose|i: int|
                0 <= i < new_rs.len() && (#[trigger] new_rs[i]).min <= w <= new_rs[i].max;
            if i == idx && w != val {
                assert(rs[idx].min <= w <= rs[idx].max);
            }
        }
        if covered(rs, w) {
            let i = choose|i: int| 0 <= i < rs.len() && (#[trigger] rs[i]).min <= w <= rs[i].max;
            if i == idx {
                assert(new_rs[idx].min <= w <= new_rs[idx].max);
            }
            assert(covered(new_rs, w));
        }
        if w == val {
            assert(new_rs[idx].min <= w <= new_rs[idx].max);
            assert(covered(new_rs, w));
        }
    }
}

proof fn lemma_release_singleton(rs: Seq<Range>, new_rs: Seq<Range>, idx: int, val: u32)
    requires
        release_scan(rs, idx, val),
        0 < idx ==> rs[idx - 1].max + 1 < val,
        idx < rs.len() ==> val + 1 < rs[idx].min,
        new_rs == rs.insert(idx, Range { min: val, max: val }),
    ensures
        rs_wf(new_rs),
        forall|w: u32| covered(new_rs, w) <==> (covered(rs, w) || w == val),
{
    assert(new_rs.len() == rs.len() + 1);
    assert(forall|i: int| 0 <= i < idx ==> new_rs[i] == rs[i]);
    assert(forall|i: int| idx < i < new_rs.len() ==> new_rs[i] == rs[i - 1]);
    assert forall|w: u32| covered(new_rs, w) <==> (covered(rs, w) || w == val) by {
        if covered(new_rs, w) {
            let i = choose|i: int|
                0 <= i < new_rs.len() && (#[trigger] new_rs[i]).min <= w <= new_rs[i].max;
            if i < idx {
                assert(rs[i].min <= w <= rs[i].max);
            } else if i > idx {
                assert(rs[i - 1].min <= w <= rs[i - 1].max);
            }
        }
        if covered(rs, w) {
            let i = choose|i: int| 0 <= i < rs.len() && (#[trigger] rs[i]).min <= w <= rs[i].max;
            if i < idx {
                assert(new_rs[i].min <= w <= new_rs[i].max);
            } else {
                assert(new_rs[i + 1].min <= w <= new_rs[i + 1].max);
            }
            assert(covered(new_rs, w));
        }
        if w == val {
            assert(new_rs[idx].min <= w <= new_rs[idx].max);
            assert(covered(new_rs, w));
        }
    }
}

/// The set of identifiers still available for issue, kept as a sorted list of
/// disjoint, non-touching closed intervals.
pub struct RangeSet {
    available_ranges: Vec<Range>,
}

impl RangeSet {
    /// Internal shape of the interval list.
    pub closed spec fn wf(self) -> bool {
        rs_wf(self.available_ranges@)
    }

    /// The set of identifier values currently available.
    pub closed spec fn avail(self) -> Set<u32> {
        Set::new(|v: u32| covered(self.available_ranges@, v))
    }

    /// A fresh pool holding exactly the values of `initial_range`.
    pub fn new(initial_range: Range) -> (rs: RangeSet)
        requires
            initial_range.spec_min() <= initial_range.spec_max(),
        ensures
            rs.wf(),
            forall|v: u32|
                rs.avail().contains(v) <==> initial_range.spec_min() <= v
                    <= initial_range.spec_max(),
    {
        let mut ranges: Vec<Range> = Vec::new();
        ranges.push(initial_range);
        let rs = RangeSet { available_ranges: ranges };
        proof {
            assert forall|v: u32|
                rs.avail().contains(v) <==> initial_range.spec_min() <= v
                    <= initial_range.spec_max() by {
                if initial_range.spec_min() <= v <= initial_range.spec_max() {
                    assert(rs.available_ranges@[0].min <= v <= rs.available_ranges@[0].max);
                }
            }
        }
        rs
    }

    /// The first (lowest) interval, if any.
    fn next_range(&self) -> (r: Option<Range>)
        ensures
            match r {
                Some(rg) => self.available_ranges@.len() > 0 && rg == self.available_ranges@[0],
                None => self.available_ranges@.len() == 0,
            },
    {
        if self.available_ranges.len() > 0 {
            Some(self.available_ranges[0])
        } else {
            None
        }
    }

    /// Take the smallest available identifier out of the pool, or report
    /// exhaustion (with no effect) when the pool is empty.
    pub fn take_any_one(&mut self) -> (r: Option<u32>)
        requires
            old(self).wf(),
        ensures
            final(self).wf(),
            match r {
                Some(v) => {
                    &&& old(self).avail().contains(v)
                    &&& forall|w: u32| old(self).avail().contains(w) ==> v <= w
                    &&& forall|w: u32|
                        final(self).avail().contains(w) <==> (old(self).avail().contains(w) && w
                            != v)
                },
                None => {
                    &&& *final(self) == *old(self)
                    &&& forall|w: u32| !old(self).avail().contains(w)
                },
            },
    {
        let ghost old_rs = self.available_ranges@;
        if let Some(range) = self.next_range() {
            let taken = range.min;
            if range.min == range.max {
                self.available_ranges.remove(0);
            } else {
                let upper = Range { min: range.min + 1, max: range.max };
                self.available_ranges.remove(0);
                self.available_ranges.insert(0, upper);
            }
            proof {
                let new_rs = self.available_ranges@;
                assert forall|w: u32| old(self).avail().contains(w) implies taken <= w by {
                    let i = choose|i: int|
                        0 <= i < old_rs.len() && (#[trigger] old_rs[i]).min <= w <= old_rs[i].max;
                    if i > 0 {
                        assert(old_rs[0].max + 2 <= old_rs[i].min);
                    }
                }
                assert(old_rs[0].min <= taken <= old_rs[0].max);
                assert forall|w: u32|
                    final(self).avail().contains(w) <==> (old(self).avail().contains(w) && w
                        != taken) by {
                    if covered(new_rs, w) {
                        let i = choose|i: int|
                            0 <= i < new_rs.len() && (#[trigger] new_rs[i]).min <= w
                                <= new_rs[i].max;
                        if range.min == range.max {
                            assert(new_rs[i] == old_rs[i + 1]);
                            assert(old_rs[0].max + 2 <= old_rs[i + 1].min);
                        } else {
                            if i == 0 {
                                assert(old_rs[0].min <= w <= old_rs[0].max);
                            } else {
                                assert(new_rs[i] == old_rs[i]);
                                assert(old_rs[0].max + 2 <= old_rs[i].min);
                            }
                        }
                    }
                    if covered(old_rs, w) && w != taken {
                        let i = choose|i: int|
                            0 <= i < old_rs.len() && (#[trigger] old_rs[i]).min <= w
                                <= old_rs[i].max;
                        if range.min == range.max {
                            if i == 0 {
                                assert(w == taken);
                            } else {
                                assert(new_rs[i - 1] == old_rs[i]);
                                assert(covered(new_rs, w));
                            }
                        } else {
                            if i == 0 {
                                assert(new_rs[0].min <= w <= new_rs[0].max);
                            } else {
                                assert(new_rs[i] == old_rs[i]);
                            }
                            assert(covered(new_rs, w));
                        }
                    }
                }
            }
            Some(taken)
        } else {
            proof {
                assert forall|w: u32| !old(self).avail().contains(w) by {
                    assert(!covered(old_rs, w));
                }
            }
            None
        }
    }

    /// Return `val` to the pool. Returns `false` and leaves the pool unchanged
    /// when `val` is already available (a double release); otherwise merges
    /// `val` into the intervals and returns `true`.
    pub fn release_one(&mut self, val: u32) -> (r: bool)
        requires
            old(self).wf(),
        ensures
            final(self).wf(),
            r == !old(self).avail().contains(val),
            r ==> forall|w: u32|
                final(self).avail().contains(w) <==> (old(self).avail().contains(w) || w == val),
            !r ==> *final(self) == *old(self),
    {
        let ghost old_rs = self.available_ranges@;
        // Find the first interval not entirely below val.
        let mut idx: usize = 0;
        while idx < self.available_ranges.len() && self.available_ranges[idx].max < val
            invariant
                old(self).wf(),
                *self == *old(self),
                idx <= self.available_ranges@.len(),
                forall|i: int| 0 <= i < idx ==> (#[trigger] self.available_ranges@[i]).max < val,
            decreases self.available_ranges@.len() - idx,
        {
            idx += 1;
        }
        if idx < self.available_ranges.len() && self.available_ranges[idx].min <= val {
            // val is already available: a double release.
            proof {
                assert(old_rs[idx as int].min <= val <= old_rs[idx as int].max);
            }
            return false;
        }
        proof {
            assert(release_scan(old_rs, idx as int, val));
            lemma_release_not_covered(old_rs, idx as int, val);
        }
        let mut left_adjacent = false;
        if idx > 0 {
            let left_max = self.available_ranges[idx - 1].max;
            proof {
                assert(old_rs[idx - 1].max < val);
            }
            if left_max + 1 == val {
                left_adjacent = true;
            }
        }
        let mut right_adjacent = false;
        if idx < self.available_ranges.len() {
            if val + 1 == self.available_ranges[idx].min {
                right_adjacent = true;
            }
        }
        if left_adjacent && right_adjacent {
            // val bridges the two neighbouring intervals: merge them.
            let merged = Range {
                min: self.available_ranges[idx - 1].min,
                max: self.available_ranges[idx].max,
            };
            self.available_ranges.remove(idx);
            self.available_ranges.remove(idx - 1);
            self.available_ranges.insert(idx - 1, merged);
            proof {
                lemma_release_merge_both(old_rs, self.available_ranges@, idx as int, val);
            }
        } else if left_adjacent {
            // Extend the interval on the left up to val.
            let grown = Range { min: self.available_ranges[idx - 1].min, max: val };
            self.available_ranges.remove(idx - 1);
            self.available_ranges.insert(idx - 1, grown);
            proof {
                lemma_release_grow_left(old_rs, self.available_ranges@, idx as int, val);
            }
        } else if right_adjacent {
            // Extend the interval on the right down to val.
            let grown = Range { min: val, max: self.available_ranges[idx].max };
            self.available_ranges.remove(idx);
            self.available_ranges.insert(idx, grown);
            proof {
                lemma_release_grow_right(old_rs, self.available_ranges@, idx as int, val);
            }
        } else {
            // val touches nothing: insert it as a singleton interval.
            self.available_ranges.insert(idx, Range { min: val, max: val });
            proof {
                lemma_release_singleton(old_rs, self.available_ranges@, idx as int, val);
            }
        }
        true
    }
}

} // verus!
