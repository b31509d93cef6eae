//! A container for pairwise disjoint half-open ranges on a timeline.
//!
//! A [`Timeline`] stores items ordered by their start position and keeps
//! their ranges `[start, end)` from intersecting: an insertion is validated
//! against its two neighbours and rejected if it would overlap either, and a
//! single-point lookup returns the item covering a position, if any.

use vstd::prelude::*;

pub mod laws;

verus! {

/// A value that occupies the half-open range `[start(), end())` on a
/// timeline. Positions are totally ordered `u64` values.
///
/// A meaningful item has `start() < end()`; the container never enforces
/// this, so callers are responsible for handing it well-formed ranges.
pub trait TimelineItem: Sized {
    /// The start position, as contracts see it.
    spec fn spec_start(&self) -> u64;

    /// The end position (exclusive), as contracts see it.
    spec fn spec_end(&self) -> u64;

    /// The first position covered by the item.
    fn start(&self) -> (p: u64)
        ensures
            p == self.spec_start(),
    ;

    /// The first position past the item.
    fn end(&self) -> (p: u64)
        ensures
            p == self.spec_end(),
    ;
}

impl TimelineItem for (u64, u64) {
    open spec fn spec_start(&self) -> u64 {
        self.0
    }

    open spec fn spec_end(&self) -> u64 {
        self.1
    }

    fn start(&self) -> (p: u64) {
        self.0
    }

    fn end(&self) -> (p: u64) {
        self.1
    }
}

impl TimelineItem for (u32, u32) {
    open spec fn spec_start(&self) -> u64 {
        self.0 as u64
    }

    open spec fn spec_end(&self) -> u64 {
        self.1 as u64
    }

    fn start(&self) -> (p: u64) {
        self.0 as u64
    }

    fn end(&self) -> (p: u64) {
        self.1 as u64
    }
}

/// The starts of `sq` are strictly increasing: the order a mapping keyed by
/// start position keeps its entries in, with at most one entry per start.
pub open spec fn starts_sorted<T: TimelineItem>(sq: Seq<T>) -> bool {
    forall|i: int, j: int|
        0 <= i < j < sq.len() ==> sq[i].spec_start() < sq[j].spec_start()
}

/// Position `p` lies inside the half-open range `[s, e)`.
pub open spec fn covers(s: u64, e: u64, p: u64) -> bool {
    s <= p && p < e
}

/// The half-open ranges `[s1, e1)` and `[s2, e2)` share at least one
/// position. Ranges with `s >= e` are empty and overlap nothing; ranges
/// that merely touch (one's end equals the other's start) do not overlap.
pub open spec fn overlaps(s1: u64, e1: u64, s2: u64, e2: u64) -> bool {
    s1 < e1 && s2 < e2 && s1 < e2 && s2 < e1
}

/// The number of leading items of `sq` whose start is below `p`. When the
/// starts are sorted this is the index where a start of `p` belongs: every
/// item before it starts below `p` and every item from it on does not.
pub open spec fn seat<T: TimelineItem>(sq: Seq<T>, p: u64) -> int
    decreases sq.len(),
{
    if sq.len() == 0 {
        0
    } else if sq[0].spec_start() < p {
        1 + seat(sq.skip(1), p)
    } else {
        0
    }
}

/// What [`seat`] returns: a position in `sq` that splits starts below `p`
/// from the rest (the split is exact when the starts are sorted).
pub proof fn lemma_seat<T: TimelineItem>(sq: Seq<T>, p: u64)
    ensures
        0 <= seat(sq, p) <= sq.len(),
        forall|i: int| 0 <= i < seat(sq, p) ==> sq[i].spec_start() < p,
        seat(sq, p) < sq.len() ==> sq[seat(sq, p)].spec_start() >= p,
        starts_sorted(sq) ==> forall|i: int|
            seat(sq, p) <= i < sq.len() ==> sq[i].spec_start() >= p,
    decreases sq.len(),
{
    if sq.len() > 0 && sq[0].spec_start() < p {
        let rest = sq.skip(1);
        lemma_seat(rest, p);
        assert(forall|i: int| 0 <= i < rest.len() ==> rest[i] == sq[i + 1]);
        assert forall|i: int| 0 <= i < seat(sq, p) implies sq[i].spec_start() < p by {
            if i >= 1 {
                assert(rest[i - 1] == sq[i]);
            }
        }
        if starts_sorted(sq) {
            assert(starts_sorted(rest));
            assert forall|i: int| seat(sq, p) <= i < sq.len()
                implies sq[i].spec_start() >= p by {
                assert(rest[i - 1] == sq[i]);
            }
        }
    }
}

/// The candidate range `[s, e)` does not run into the item just ahead of
/// it: the stored item with the greatest start below `e`, if one exists,
/// ends at or before `s`. This is the head-overlap check of the container.
pub open spec fn head_clear<T: TimelineItem>(sq: Seq<T>, s: u64, e: u64) -> bool {
    forall|i: int|
        0 <= i < sq.len() && sq[i].spec_start() < e
            && (i + 1 == sq.len() || e <= sq[i + 1].spec_start())
            ==> sq[i].spec_end() <= s
}

/// The candidate range `[s, e)` does not run into the item just behind it:
/// the stored item with the least start at or above `s`, if one exists,
/// starts at or past `e`. This is the tail-overlap check of the container.
pub open spec fn tail_clear<T: TimelineItem>(sq: Seq<T>, s: u64, e: u64) -> bool {
    forall|i: int|
        0 <= i < sq.len() && s <= #[trigger] sq[i].spec_start()
            && (i == 0 || sq[i - 1].spec_start() < s)
            ==> e <= sq[i].spec_start()
}

/// The container accepts the candidate range `[s, e)`: neither of its two
/// neighbours among the stored items is in the way.
pub open spec fn insertable<T: TimelineItem>(sq: Seq<T>, s: u64, e: u64) -> bool {
    head_clear(sq, s, e) && tail_clear(sq, s, e)
}

/// `sq` with `item` keyed in by its start position: the entry sharing its
/// start is replaced if there is one, and otherwise `item` takes its seat
/// in start order.
pub open spec fn with_item<T: TimelineItem>(sq: Seq<T>, item: T) -> Seq<T> {
    let k = seat(sq, item.spec_start());
    if k < sq.len() && sq[k].spec_start() == item.spec_start() {
        sq.update(k, item)
    } else {
        sq.insert(k, item)
    }
}

/// `sq` without the entry whose start position is `p`; `sq` itself when no
/// entry starts at `p`.
pub open spec fn without_start<T: TimelineItem>(sq: Seq<T>, p: u64) -> Seq<T> {
    let k = seat(sq, p);
    if k < sq.len() && sq[k].spec_start() == p {
        sq.remove(k)
    } else {
        sq
    }
}

/// The stored items are well-formed: each is a proper range, and in start
/// order each ends at or before the next begins, so all ranges are pairwise
/// disjoint. Every timeline built from well-formed items alone looks like
/// this; an ill-formed item (`start >= end`) that a caller slips in can
/// break it.
pub open spec fn well_formed<T: TimelineItem>(sq: Seq<T>) -> bool {
    &&& starts_sorted(sq)
    &&& forall|i: int| 0 <= i < sq.len() ==> sq[i].spec_start() < sq[i].spec_end()
    &&& forall|i: int, j: int|
        0 <= i < j < sq.len() ==> sq[i].spec_end() <= sq[j].spec_start()
}

/// Index `i` holds the item a point lookup at `p` returns: the last item
/// whose start is at or below `p`, provided `p` lies before its end.
pub open spec fn covering_at<T: TimelineItem>(sq: Seq<T>, p: u64, i: int) -> bool {
    &&& 0 <= i < sq.len()
    &&& sq[i].spec_start() <= p
    &&& (i + 1 == sq.len() || p < sq[i + 1].spec_start())
    &&& p < sq[i].spec_end()
}

/// A set of non-overlapping timeline items, ordered by start position.
///
/// Its view is the stored items as a sequence, sorted by start. Items are
/// keyed by their start position: inserting at an already-present start
/// replaces the entry at that start.
pub struct Timeline<T: TimelineItem> {
    items: Vec<T>,
}

impl<T: TimelineItem> View for Timeline<T> {
    type V = Seq<T>;

    closed spec fn view(&self) -> Seq<T> {
        self.items@
    }
}

impl<T: TimelineItem> Timeline<T> {
    #[verifier::type_invariant]
    spec fn sorted_by_start(self) -> bool {
        starts_sorted(self@)
    }

    /// The first index whose item starts at or above `p`, found by binary
    /// search; equals the number of stored items starting below `p`.
    fn index_at_or_above(&self, p: u64) -> (k: usize)
        ensures
            k <= self@.len(),
            k as int == seat(self@, p),
            forall|i: int| 0 <= i < k ==> self@[i].spec_start() < p,
            forall|i: int| k <= i < self@.len() ==> self@[i].spec_start() >= p,
    {
        proof {
            use_type_invariant(&*self);
            lemma_seat(self@, p);
        }
        let mut lo: usize = 0;
        let mut hi: usize = self.items.len();
        while lo != hi
            invariant
                lo <= hi <= self.items.len(),
                starts_sorted(self@),
                forall|i: int| 0 <= i < lo ==> self@[i].spec_start() < p,
                forall|i: int| hi <= i < self@.len() ==> self@[i].spec_start() >= p,
            decreases hi - lo,
        {
            let mid = lo + (hi - lo) / 2;
            if self.items[mid].start() < p {
                lo = mid + 1;
            } else {
                hi = mid;
            }
        }
        proof {
            if (lo as int) < seat(self@, p) {
                assert(self@[lo as int].spec_start() < p);
                assert(self@[lo as int].spec_start() >= p);
            }
            if (lo as int) > seat(self@, p) {
                assert(self@[seat(self@, p)].spec_start() >= p);
                assert(self@[seat(self@, p)].spec_start() < p);
            }
        }
        lo
    }

    /// The first index whose item starts strictly above `p`, found by
    /// binary search.
    fn index_above(&self, p: u64) -> (k: usize)
        ensures
            k <= self@.len(),
            forall|i: int| 0 <= i < k ==> self@[i].spec_start() <= p,
            forall|i: int| k <= i < self@.len() ==> self@[i].spec_start() > p,
    {
        proof {
            use_type_invariant(&*self);
        }
        let mut lo: usize = 0;
        let mut hi: usize = self.items.len();
        while lo != hi
            invariant
                lo <= hi <= self.items.len(),
                starts_sorted(self@),
                forall|i: int| 0 <= i < lo ==> self@[i].spec_start() <= p,
                forall|i: int| hi <= i < self@.len() ==> self@[i].spec_start() > p,
            decreases hi - lo,
        {
            let mid = lo + (hi - lo) / 2;
            if self.items[mid].start() <= p {
                lo = mid + 1;
            } else {
                hi = mid;
            }
        }
        lo
    }

    /// A read-only overlap test: whether `item`'s range `[start, end)` can
    /// join the stored items. The item just ahead of the range and the item
    /// just behind it are inspected; when the stored items are well-formed
    /// those two neighbours are the only ones that could be in the way.
    /// Ranges that merely touch a neighbour pass the test.
    pub fn is_insertable(&self, item: &T) -> (r: bool)
        ensures
            r == insertable(self@, item.spec_start(), item.spec_end()),
            well_formed(self@) && item.spec_start() < item.spec_end() ==> (r
                <==> forall|i: int|
                0 <= i < self@.len() ==> !overlaps(
                    item.spec_start(),
                    item.spec_end(),
                    self@[i].spec_start(),
                    self@[i].spec_end(),
                )),
    {
        proof {
            use_type_invariant(&*self);
        }
        let s = item.start();
        let e = item.end();
        let ke = self.index_at_or_above(e);
        if ke > 0 {
            let ahead = &self.items[ke - 1];
            if s < ahead.end() {
                proof {
                    assert(self@[ke - 1].spec_start() < e);
                    assert(!head_clear(self@, s, e));
                    if well_formed(self@) && s < e {
                        crate::laws::lemma_insertable_iff_no_overlap(self@, s, e);
                    }
                }
                return false;  // the candidate's head runs into `ahead`
            }
        }
        let ks = self.index_at_or_above(s);
        if ks < self.items.len() {
            let behind = &self.items[ks];
            if behind.start() < e {
                proof {
                    assert(s <= self@[ks as int].spec_start());
                    assert(!tail_clear(self@, s, e));
                    if well_formed(self@) && s < e {
                        crate::laws::lemma_insertable_iff_no_overlap(self@, s, e);
                    }
                }
                return false;  // the candidate's tail runs into `behind`
            }
        }
        proof {
            assert forall|i: int|
                0 <= i < self@.len() && self@[i].spec_start() < e
                    && (i + 1 == self@.len() || e <= self@[i + 1].spec_start())
                implies self@[i].spec_end() <= s by {
                assert(i < ke);
                if i + 1 < self@.len() {
                    assert(i + 1 >= ke);
                }
            }
            assert forall|i: int|
                0 <= i < self@.len() && s <= #[trigger] self@[i].spec_start()
                    && (i == 0 || self@[i - 1].spec_start() < s)
                implies e <= self@[i].spec_start() by {
                assert(i >= ks);
                if i > 0 {
                    assert(i - 1 < ks);
                }
            }
            if well_formed(self@) && s < e {
                crate::laws::lemma_insertable_iff_no_overlap(self@, s, e);
            }
        }
        true
    }

    /// Stores `item` keyed by its start position if its range overlaps no
    /// neighbour, replacing any entry that shares its exact start; rejects
    /// it otherwise, handing it back unchanged with the stored items
    /// untouched.
    pub fn insert(&mut self, item: T) -> (r: Result<(), T>)
        ensures
            r is Ok <==> insertable(old(self)@, item.spec_start(), item.spec_end()),
            r is Ok ==> final(self)@ == with_item(old(self)@, item),
            r is Err ==> final(self)@ == old(self)@ && r == Result::<(), T>::Err(item),
            well_formed(old(self)@) && item.spec_start() < item.spec_end() ==> well_formed(
                final(self)@,
            ),
    {
        proof {
            use_type_invariant(&*self);
        }
        if !self.is_insertable(&item) {
            return Err(item);
        }
        let s = item.start();
        let k = self.index_at_or_above(s);
        let ghost prior = self@;
        proof {
            if well_formed(prior) && item.spec_start() < item.spec_end() {
                crate::laws::lemma_insert_keeps_well_formed(prior, item);
            }
        }
        let mut v: Vec<T> = Vec::new();
        std::mem::swap(&mut v, &mut self.items);
        if k < v.len() && v[k].start() == s {
            v[k] = item;
            proof {
                let nv = prior.update(k as int, item);
                assert(v@ == nv);
                assert forall|i: int, j: int| 0 <= i < j < nv.len()
                    implies nv[i].spec_start() < nv[j].spec_start() by {
                    assert(prior[i].spec_start() < prior[j].spec_start());
                }
                assert(v@ == with_item(prior, item));
            }
        } else {
            v.insert(k, item);
            proof {
                let nv = prior.insert(k as int, item);
                assert(v@ == nv);
                prior.insert_ensures(k as int, item);
                assert forall|i: int| k <= i < prior.len()
                    implies prior[i].spec_start() > s by {
                    assert(prior[k as int].spec_start() != s);
                    if i > k {
                        assert(prior[k as int].spec_start() < prior[i].spec_start());
                    }
                }
                assert forall|i: int, j: int| 0 <= i < j < nv.len()
                    implies nv[i].spec_start() < nv[j].spec_start() by {
                    if j < k {
                        assert(nv[i] == prior[i] && nv[j] == prior[j]);
                    } else if j == k {
                        assert(nv[i] == prior[i]);
                    } else if i < k {
                        assert(nv[j] == prior[j - 1]);
                    } else if i == k {
                        assert(nv[j] == prior[j - 1]);
                    } else {
                        assert(nv[i] == prior[i - 1] && nv[j] == prior[j - 1]);
                    }
                }
                assert(v@ == with_item(prior, item));
            }
        }
        self.items = v;
        Ok(())
    }

    /// Deletes the entry whose start position equals `item.start()`, if
    /// there is one; a no-op otherwise. The entry is looked up by start
    /// alone, so an `item` other than the stored one deletes whatever is
    /// stored at that start.
    pub fn remove(&mut self, item: &T)
        ensures
            final(self)@ == without_start(old(self)@, item.spec_start()),
            well_formed(old(self)@) ==> well_formed(final(self)@),
    {
        proof {
            use_type_invariant(&*self);
        }
        let s = item.start();
        let k = self.index_at_or_above(s);
        if k < self.items.len() && self.items[k].start() == s {
            let ghost prior = self@;
            let mut v: Vec<T> = Vec::new();
            std::mem::swap(&mut v, &mut self.items);
            v.remove(k);
            proof {
                let nv = prior.remove(k as int);
                assert(v@ == nv);
                prior.remove_ensures(k as int);
                assert forall|i: int, j: int| 0 <= i < j < nv.len()
                    implies nv[i].spec_start() < nv[j].spec_start()
                        && (well_formed(prior) ==> nv[i].spec_end()
                        <= nv[j].spec_start()) by {
                    if j < k {
                        assert(nv[i] == prior[i] && nv[j] == prior[j]);
                    } else if i < k {
                        assert(nv[i] == prior[i] && nv[j] == prior[j + 1]);
                    } else {
                        assert(nv[i] == prior[i + 1] && nv[j] == prior[j + 1]);
                    }
                }
                if well_formed(prior) {
                    assert forall|i: int| 0 <= i < nv.len()
                        implies nv[i].spec_start() < nv[i].spec_end() by {
                        if i < k {
                            assert(nv[i] == prior[i]);
                        } else {
                            assert(nv[i] == prior[i + 1]);
                        }
                    }
                }
                assert(v@ == without_start(prior, s));
            }
            self.items = v;
        }
    }

    /// A point lookup: the stored item covering `position`, if any. The
    /// candidate is the entry with the greatest start at or below
    /// `position`; it is returned only while `position` lies strictly
    /// before its end, so a position equal to an item's end is not covered
    /// by that item.
    pub fn get(&self, position: u64) -> (r: Option<&T>)
        ensures
            match r {
                Option::Some(it) => exists|i: int|
                    covering_at(self@, position, i) && *it == self@[i],
                Option::None => forall|i: int| !covering_at(self@, position, i),
            },
            well_formed(self@) ==> match r {
                Option::Some(it) => exists|i: int|
                    0 <= i < self@.len() && *it == self@[i] && covers(
                        self@[i].spec_start(),
                        self@[i].spec_end(),
                        position,
                    ),
                Option::None => forall|i: int|
                    0 <= i < self@.len() ==> !covers(
                        self@[i].spec_start(),
                        self@[i].spec_end(),
                        position,
                    ),
            },
    {
        proof {
            use_type_invariant(&*self);
        }
        let k = self.index_above(position);
        if k > 0 {
            let it = &self.items[k - 1];
            if position < it.end() {
                proof {
                    assert(covering_at(self@, position, k - 1));
                    assert(covers(
                        self@[k - 1].spec_start(),
                        self@[k - 1].spec_end(),
                        position,
                    ));
                }
                Some(it)
            } else {
                proof {
                    assert forall|i: int| !covering_at(self@, position, i) by {
                        if 0 <= i < self@.len() {
                            if i < k - 1 {
                                assert(self@[i + 1].spec_start() <= position);
                            } else if i == k - 1 {
                                assert(position >= self@[i].spec_end());
                            } else {
                                assert(self@[i].spec_start() > position);
                            }
                        }
                    }
                    if well_formed(self@) {
                        crate::laws::lemma_no_covering_no_cover(self@, position);
                    }
                }
                None
            }
        } else {
            proof {
                assert forall|i: int| !covering_at(self@, position, i) by {
                    if 0 <= i < self@.len() {
                        assert(self@[i].spec_start() > position);
                    }
                }
                if well_formed(self@) {
                    crate::laws::lemma_no_covering_no_cover(self@, position);
                }
            }
            None
        }
    }
}

impl<T: TimelineItem> Default for Timeline<T> {
    /// An empty timeline.
    fn default() -> (t: Self)
        ensures
            t@ == Seq::<T>::empty(),
    {
        Timeline { items: Vec::new() }
    }
}

} // verus!
