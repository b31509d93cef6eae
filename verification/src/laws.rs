//! The guarantees a timeline gives when it is used as intended: with items
//! whose ranges are proper (`start < end`), stored contents stay pairwise
//! disjoint, the overlap test accepts exactly the candidates that overlap
//! no stored item, and a point lookup answers exactly for coverage.

use vstd::prelude::*;

use crate::{
    TimelineItem, covering_at, covers, insertable, lemma_seat, overlaps, seat, starts_sorted,
    tail_clear, well_formed, with_item,
};

verus! {

/// Well-formed contents are pairwise disjoint: no position is covered by
/// two distinct stored items.
pub proof fn lemma_disjoint<T: TimelineItem>(sq: Seq<T>)
    requires
        well_formed(sq),
    ensures
        forall|i: int, j: int|
            0 <= i < sq.len() && 0 <= j < sq.len() && i != j ==> !overlaps(
                sq[i].spec_start(),
                sq[i].spec_end(),
                sq[j].spec_start(),
                sq[j].spec_end(),
            ),
{
    assert forall|i: int, j: int|
        0 <= i < sq.len() && 0 <= j < sq.len() && i != j
        implies !overlaps(
            sq[i].spec_start(),
            sq[i].spec_end(),
            sq[j].spec_start(),
            sq[j].spec_end(),
        ) by {
        if i < j {
            assert(sq[i].spec_end() <= sq[j].spec_start());
        } else {
            assert(sq[j].spec_end() <= sq[i].spec_start());
        }
    }
}

/// The last index at or past `i` whose start is at or below `p`.
proof fn last_at_or_below<T: TimelineItem>(sq: Seq<T>, p: u64, i: int) -> (j: int)
    requires
        0 <= i < sq.len(),
        sq[i].spec_start() <= p,
    ensures
        i <= j < sq.len(),
        sq[j].spec_start() <= p,
        j + 1 == sq.len() || p < sq[j + 1].spec_start(),
    decreases sq.len() - i,
{
    if i + 1 == sq.len() || sq[i + 1].spec_start() > p {
        i
    } else {
        last_at_or_below(sq, p, i + 1)
    }
}

/// When the lookup rule finds no item at a position in well-formed
/// contents, no stored item covers that position at all.
pub proof fn lemma_no_covering_no_cover<T: TimelineItem>(sq: Seq<T>, p: u64)
    requires
        well_formed(sq),
        forall|i: int| !covering_at(sq, p, i),
    ensures
        forall|i: int|
            0 <= i < sq.len() ==> !covers(sq[i].spec_start(), sq[i].spec_end(), p),
{
    assert forall|i: int| 0 <= i < sq.len()
        implies !covers(sq[i].spec_start(), sq[i].spec_end(), p) by {
        if covers(sq[i].spec_start(), sq[i].spec_end(), p) {
            let j = last_at_or_below(sq, p, i);
            assert(!covering_at(sq, p, j));
            assert(sq[j].spec_end() <= p);
            if i < j {
                assert(sq[i].spec_end() <= sq[j].spec_start());
            }
            assert(false);
        }
    }
}

/// Over well-formed contents, the neighbour checks accept a proper
/// candidate range exactly when it overlaps no stored item. In one
/// direction: a candidate intersecting any stored range is rejected. In the
/// other: a candidate clear of every stored range is accepted, so ranges
/// that only abut stored ones pass.
pub proof fn lemma_insertable_iff_no_overlap<T: TimelineItem>(sq: Seq<T>, s: u64, e: u64)
    requires
        well_formed(sq),
        s < e,
    ensures
        insertable(sq, s, e) <==> (forall|i: int|
            0 <= i < sq.len() ==> !overlaps(s, e, sq[i].spec_start(), sq[i].spec_end())),
{
    if forall|i: int|
        0 <= i < sq.len() ==> !overlaps(s, e, sq[i].spec_start(), sq[i].spec_end()) {
        assert forall|i: int|
            0 <= i < sq.len() && sq[i].spec_start() < e
                && (i + 1 == sq.len() || e <= sq[i + 1].spec_start())
            implies sq[i].spec_end() <= s by {
            assert(!overlaps(s, e, sq[i].spec_start(), sq[i].spec_end()));
        }
        assert forall|i: int|
            0 <= i < sq.len() && s <= #[trigger] sq[i].spec_start()
                && (i == 0 || sq[i - 1].spec_start() < s)
            implies e <= sq[i].spec_start() by {
            assert(!overlaps(s, e, sq[i].spec_start(), sq[i].spec_end()));
        }
    }
    if insertable(sq, s, e) {
        lemma_seat(sq, s);
        lemma_seat(sq, e);
        let ks = seat(sq, s);
        let ke = seat(sq, e);
        assert forall|i: int| 0 <= i < sq.len()
            implies !overlaps(s, e, sq[i].spec_start(), sq[i].spec_end()) by {
            if overlaps(s, e, sq[i].spec_start(), sq[i].spec_end()) {
                if sq[i].spec_start() >= s {
                    assert(ks <= i);
                    assert(s <= sq[ks].spec_start());
                    assert(e <= sq[ks].spec_start());
                    if ks < i {
                        assert(sq[ks].spec_start() < sq[i].spec_start());
                    }
                    assert(false);
                } else {
                    assert(i < ke);
                    assert(sq[ke - 1].spec_start() < e);
                    assert(sq[ke - 1].spec_end() <= s);
                    if i < ke - 1 {
                        assert(sq[i].spec_end() <= sq[ke - 1].spec_start());
                        assert(ks <= ke - 1);
                        assert(s <= sq[ks].spec_start());
                        assert(e <= sq[ks].spec_start());
                        if ks < ke - 1 {
                            assert(sq[ks].spec_start() < sq[ke - 1].spec_start());
                        }
                    }
                    assert(false);
                }
            }
        }
    }
}

/// An accepted proper candidate shares its start with no stored item, so
/// accepting it never replaces an entry.
pub proof fn lemma_insertable_fresh_start<T: TimelineItem>(sq: Seq<T>, s: u64, e: u64)
    requires
        starts_sorted(sq),
        s < e,
        tail_clear(sq, s, e),
    ensures
        forall|i: int| 0 <= i < sq.len() ==> sq[i].spec_start() != s,
{
    lemma_seat(sq, s);
    let ks = seat(sq, s);
    assert forall|i: int| 0 <= i < sq.len() implies sq[i].spec_start() != s by {
        if sq[i].spec_start() == s {
            assert(ks <= i);
            assert(s <= sq[ks].spec_start());
            assert(e <= sq[ks].spec_start());
            if ks < i {
                assert(sq[ks].spec_start() < sq[i].spec_start());
            }
            assert(false);
        }
    }
}

/// Accepting a proper candidate keeps the contents well-formed: the new
/// item seats itself between its neighbours without touching past either.
pub proof fn lemma_insert_keeps_well_formed<T: TimelineItem>(sq: Seq<T>, item: T)
    requires
        well_formed(sq),
        item.spec_start() < item.spec_end(),
        insertable(sq, item.spec_start(), item.spec_end()),
    ensures
        well_formed(with_item(sq, item)),
{
    let s = item.spec_start();
    let e = item.spec_end();
    lemma_seat(sq, s);
    let k = seat(sq, s);
    lemma_insertable_fresh_start(sq, s, e);
    let nv = sq.insert(k, item);
    assert(with_item(sq, item) == nv);
    sq.insert_ensures(k, item);
    if k < sq.len() {
        assert(s <= sq[k].spec_start());
        assert(e <= sq[k].spec_start());
    }
    assert forall|i: int| k <= i < sq.len() implies e <= sq[i].spec_start() by {
        if i > k {
            assert(sq[k].spec_start() < sq[i].spec_start());
        }
    }
    if k > 0 {
        assert(sq[k - 1].spec_start() < e);
        assert(sq[k - 1].spec_end() <= s);
    }
    assert forall|i: int| 0 <= i < k implies sq[i].spec_end() <= s by {
        if i < k - 1 {
            assert(sq[i].spec_end() <= sq[k - 1].spec_start());
        }
    }
    assert forall|i: int, j: int| 0 <= i < j < nv.len()
        implies nv[i].spec_end() <= nv[j].spec_start()
            && nv[i].spec_start() < nv[j].spec_start() by {
        if j < k {
            assert(nv[i] == sq[i] && nv[j] == sq[j]);
        } else if j == k {
            assert(nv[i] == sq[i] && nv[j] == item);
        } else if i < k {
            assert(nv[i] == sq[i] && nv[j] == sq[j - 1]);
        } else if i == k {
            assert(nv[i] == item && nv[j] == sq[j - 1]);
        } else {
            assert(nv[i] == sq[i - 1] && nv[j] == sq[j - 1]);
        }
    }
    assert forall|i: int| 0 <= i < nv.len()
        implies nv[i].spec_start() < nv[i].spec_end() by {
        if i < k {
            assert(nv[i] == sq[i]);
        } else if i == k {
            assert(nv[i] == item);
        } else {
            assert(nv[i] == sq[i - 1]);
        }
    }
}

/// The contents a timeline holds after the items of `items` are inserted
/// into it one by one, in order, starting from empty, each insertion
/// landing as an accepted insert does.
pub open spec fn timeline_of<T: TimelineItem>(items: Seq<T>) -> Seq<T>
    decreases items.len(),
{
    if items.len() == 0 {
        Seq::empty()
    } else {
        with_item(timeline_of(items.drop_last()), items.last())
    }
}

/// Inserting the items of `items` in order, starting from empty, gets
/// every one of them accepted.
pub open spec fn all_accepted<T: TimelineItem>(items: Seq<T>) -> bool
    decreases items.len(),
{
    items.len() == 0 || (all_accepted(items.drop_last()) && insertable(
        timeline_of(items.drop_last()),
        items.last().spec_start(),
        items.last().spec_end(),
    ))
}

/// Keying in an item whose start no stored item shares adds it to the
/// contents and disturbs nothing else.
pub proof fn lemma_with_item_contents<T: TimelineItem>(sq: Seq<T>, item: T)
    requires
        forall|i: int| 0 <= i < sq.len() ==> sq[i].spec_start() != item.spec_start(),
    ensures
        with_item(sq, item).to_multiset() == sq.to_multiset().insert(item),
{
    lemma_seat(sq, item.spec_start());
    let k = seat(sq, item.spec_start());
    let nv = sq.insert(k, item);
    assert(with_item(sq, item) == nv);
    sq.insert_ensures(k, item);
    nv.to_multiset_ensures();
    assert(nv.remove(k) =~= sq);
    assert(nv.remove(k).to_multiset() =~= nv.to_multiset().remove(nv[k]));
    assert(nv.contains(nv[k]));
    assert(nv.to_multiset().count(item) > 0);
    assert forall|x: T| #[trigger] nv.to_multiset().count(x) == sq.to_multiset().insert(
        item,
    ).count(x) by {
        assert(sq.to_multiset() == nv.to_multiset().remove(item));
        assert(sq.to_multiset().count(x) == nv.to_multiset().remove(item).count(x));
    }
    assert(nv.to_multiset() =~= sq.to_multiset().insert(item));
}

/// Two timelines that store the same items store them identically: the
/// contents are pinned by what they hold, since both keep it in start
/// order.
pub proof fn lemma_same_items_same_timeline<T: TimelineItem>(sq1: Seq<T>, sq2: Seq<T>)
    requires
        starts_sorted(sq1),
        starts_sorted(sq2),
        sq1.to_multiset() == sq2.to_multiset(),
    ensures
        sq1 == sq2,
    decreases sq1.len(),
{
    sq1.to_multiset_ensures();
    sq2.to_multiset_ensures();
    assert(sq1.len() == sq2.len());
    if sq1.len() == 0 {
        assert(sq1 =~= sq2);
    } else {
        assert(sq1.contains(sq1[0]));
        assert(sq2.to_multiset().count(sq1[0]) > 0);
        assert(sq2.contains(sq1[0]));
        if sq2[0] != sq1[0] {
            let j = choose|j: int| 0 <= j < sq2.len() && sq2[j] == sq1[0];
            assert(sq2.contains(sq2[0]));
            assert(sq1.to_multiset().count(sq2[0]) > 0);
            assert(sq1.contains(sq2[0]));
            let i = choose|i: int| 0 <= i < sq1.len() && sq1[i] == sq2[0];
            assert(j != 0 && i != 0);
            assert(sq2[0].spec_start() < sq2[j].spec_start());
            assert(sq1[0].spec_start() < sq1[i].spec_start());
            assert(false);
        }
        let t1 = sq1.skip(1);
        let t2 = sq2.skip(1);
        assert(sq1.remove(0) =~= t1);
        assert(sq2.remove(0) =~= t2);
        assert(sq1.remove(0).to_multiset() =~= sq1.to_multiset().remove(sq1[0]));
        assert(sq2.remove(0).to_multiset() =~= sq2.to_multiset().remove(sq2[0]));
        assert(t1.to_multiset() == t2.to_multiset());
        assert(starts_sorted(t1)) by {
            assert(forall|i: int| 0 <= i < t1.len() ==> t1[i] == sq1[i + 1]);
        }
        assert(starts_sorted(t2)) by {
            assert(forall|i: int| 0 <= i < t2.len() ==> t2[i] == sq2[i + 1]);
        }
        lemma_same_items_same_timeline(t1, t2);
        assert forall|i: int| 0 <= i < sq1.len() implies sq1[i] == sq2[i] by {
            if i > 0 {
                assert(t1[i - 1] == sq1[i]);
                assert(t2[i - 1] == sq2[i]);
            }
        }
        assert(sq1 =~= sq2);
    }
}

/// Inserting proper, pairwise non-overlapping items in any order succeeds
/// throughout and builds a well-formed timeline holding exactly those
/// items.
pub proof fn lemma_inserts_build_timeline<T: TimelineItem>(items: Seq<T>)
    requires
        forall|i: int|
            0 <= i < items.len() ==> items[i].spec_start() < items[i].spec_end(),
        forall|i: int, j: int|
            0 <= i < items.len() && 0 <= j < items.len() && i != j ==> !overlaps(
                items[i].spec_start(),
                items[i].spec_end(),
                items[j].spec_start(),
                items[j].spec_end(),
            ),
    ensures
        all_accepted(items),
        well_formed(timeline_of(items)),
        timeline_of(items).to_multiset() == items.to_multiset(),
    decreases items.len(),
{
    if items.len() == 0 {
        assert(items =~= Seq::<T>::empty());
        assert(timeline_of(items) =~= Seq::<T>::empty());
    } else {
        let rest = items.drop_last();
        let last = items.last();
        assert(forall|i: int| 0 <= i < rest.len() ==> rest[i] == items[i]);
        lemma_inserts_build_timeline(rest);
        let t = timeline_of(rest);
        t.to_multiset_ensures();
        rest.to_multiset_ensures();
        assert forall|i: int| 0 <= i < t.len() implies !overlaps(
            last.spec_start(),
            last.spec_end(),
            t[i].spec_start(),
            t[i].spec_end(),
        ) by {
            assert(t.contains(t[i]));
            assert(rest.to_multiset().count(t[i]) > 0);
            assert(rest.contains(t[i]));
            let j = choose|j: int| 0 <= j < rest.len() && rest[j] == t[i];
            assert(!overlaps(
                items[items.len() - 1].spec_start(),
                items[items.len() - 1].spec_end(),
                items[j].spec_start(),
                items[j].spec_end(),
            ));
        }
        lemma_insertable_iff_no_overlap(t, last.spec_start(), last.spec_end());
        assert(insertable(t, last.spec_start(), last.spec_end()));
        lemma_insert_keeps_well_formed(t, last);
        lemma_insertable_fresh_start(t, last.spec_start(), last.spec_end());
        lemma_with_item_contents(t, last);
        assert(items =~= rest.push(last));
        assert(rest.push(last).to_multiset() =~= rest.to_multiset().insert(last));
    }
}

/// Order independence: two orderings of one set of proper, pairwise
/// non-overlapping items both have every insert accepted, and leave the
/// timeline in the same final state.
pub proof fn lemma_order_independent<T: TimelineItem>(items1: Seq<T>, items2: Seq<T>)
    requires
        items1.to_multiset() == items2.to_multiset(),
        forall|i: int|
            0 <= i < items1.len() ==> items1[i].spec_start() < items1[i].spec_end(),
        forall|i: int|
            0 <= i < items2.len() ==> items2[i].spec_start() < items2[i].spec_end(),
        forall|i: int, j: int|
            0 <= i < items1.len() && 0 <= j < items1.len() && i != j ==> !overlaps(
                items1[i].spec_start(),
                items1[i].spec_end(),
                items1[j].spec_start(),
                items1[j].spec_end(),
            ),
        forall|i: int, j: int|
            0 <= i < items2.len() && 0 <= j < items2.len() && i != j ==> !overlaps(
                items2[i].spec_start(),
                items2[i].spec_end(),
                items2[j].spec_start(),
                items2[j].spec_end(),
            ),
    ensures
        all_accepted(items1),
        all_accepted(items2),
        timeline_of(items1) == timeline_of(items2),
{
    lemma_inserts_build_timeline(items1);
    lemma_inserts_build_timeline(items2);
    lemma_same_items_same_timeline(timeline_of(items1), timeline_of(items2));
}

} // verus!
