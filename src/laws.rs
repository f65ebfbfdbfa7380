//! What holds of the book after every update, proved over the model.
use crate::model::{
    ahead, apply_quote, insert_pos, is_key, is_sorted, kept, last_empty,
    lemma_add_room, lemma_last_empty, lemma_price_index, lemma_retire_room, price_index,
    retire_side, retired_levels, room, side_add, side_of, sorted_book, sorted_levels, step,
    strictly_sorted, sum_notional, volumes_are_sums, with_side, BookModel, LevelModel, QuoteModel,
    Side, MIN_SPREAD_PIPS,
};
use vstd::prelude::*;

verus! {

/// No level is without contributions.
pub open spec fn nonempty_levels(s: Seq<LevelModel>) -> bool {
    forall|i: int| 0 <= i < s.len() ==> #[trigger] s[i].contribs.len() > 0
}

/// No two levels share a price.
pub open spec fn distinct_prices(s: Seq<LevelModel>) -> bool {
    forall|i: int, j: int|
        0 <= i < s.len() && 0 <= j < s.len() && i != j ==> #[trigger] s[i].price
            != #[trigger] s[j].price
}

/// Each `(lp, notional)` contribution stands at most once on the side.
pub open spec fn unique_contribs(s: Seq<LevelModel>) -> bool {
    forall|i1: int, k1: int, i2: int, k2: int|
        0 <= i1 < s.len() && 0 <= i2 < s.len() && 0 <= k1 < s[i1].contribs.len() && 0 <= k2
            < s[i2].contribs.len() && #[trigger] s[i1].contribs[k1] == #[trigger] s[i2].contribs[k2]
            ==> i1 == i2 && k1 == k2
}

/// The level invariants of a side, in whatever order its levels stand.
pub open spec fn levels_ok(s: Seq<LevelModel>) -> bool {
    &&& volumes_are_sums(s)
    &&& nonempty_levels(s)
    &&& distinct_prices(s)
    &&& unique_contribs(s)
}

/// Both best levels present implies the best ask is more than the minimum
/// spread above the best bid.
pub open spec fn spread_ok(b: BookModel) -> bool {
    b.bids.len() > 0 && b.asks.len() > 0 ==> b.asks[0].price > b.bids[0].price + MIN_SPREAD_PIPS
}

/// The invariants of a book between updates.
pub open spec fn book_wf(b: BookModel) -> bool {
    &&& levels_ok(b.bids)
    &&& levels_ok(b.asks)
    &&& strictly_sorted(b.bids, Side::Buy)
    &&& strictly_sorted(b.asks, Side::Sell)
    &&& spread_ok(b)
}

proof fn lemma_kept(c: Seq<(Seq<char>, u64)>, lp: Seq<char>, n: u64)
    ensures
        forall|k: int|
            0 <= k < kept(c, lp, n).len() ==> c.contains(#[trigger] kept(c, lp, n)[k]) && !is_key(
                kept(c, lp, n)[k],
                lp,
                n,
            ),
        kept(c, lp, n).len() == 0 ==> forall|k: int| 0 <= k < c.len() ==> is_key(#[trigger] c[k], lp, n),
        (forall|k1: int, k2: int|
            0 <= k1 < c.len() && 0 <= k2 < c.len() && #[trigger] c[k1] == #[trigger] c[k2] ==> k1
                == k2) ==> (forall|k1: int, k2: int|
            0 <= k1 < kept(c, lp, n).len() && 0 <= k2 < kept(c, lp, n).len() && #[trigger] kept(
                c,
                lp,
                n,
            )[k1] == #[trigger] kept(c, lp, n)[k2] ==> k1 == k2),
    decreases c.len(),
{
    if c.len() > 0 {
        let d = c.drop_last();
        lemma_kept(d, lp, n);
        let r = kept(d, lp, n);
        assert forall|k: int| 0 <= k < d.len() implies #[trigger] d[k] == c[k] by {}
        assert forall|k: int| 0 <= k < r.len() implies c.contains(#[trigger] r[k]) by {
            let j = choose|j: int| 0 <= j < d.len() && d[j] == r[k];
            assert(c[j] == r[k]);
        }
        if !is_key(c.last(), lp, n) {
            let q = r.push(c.last());
            assert forall|k: int| 0 <= k < q.len() implies c.contains(#[trigger] q[k]) by {
                if k < r.len() {
                    assert(q[k] == r[k]);
                } else {
                    assert(q[k] == c[c.len() - 1]);
                }
            }
            if forall|k1: int, k2: int|
                0 <= k1 < c.len() && 0 <= k2 < c.len() && #[trigger] c[k1] == #[trigger] c[k2]
                    ==> k1 == k2 {
                assert forall|k1: int, k2: int|
                    0 <= k1 < d.len() && 0 <= k2 < d.len() && #[trigger] d[k1] == #[trigger] d[k2]
                        implies k1 == k2 by {
                    assert(c[k1] == d[k1] && c[k2] == d[k2]);
                }
                assert forall|k1: int, k2: int|
                    0 <= k1 < q.len() && 0 <= k2 < q.len() && #[trigger] q[k1] == #[trigger] q[k2]
                        implies k1 == k2 by {
                    if k1 < r.len() && k2 == r.len() {
                        let j = choose|j: int| 0 <= j < d.len() && d[j] == r[k1];
                        assert(c[j] == c[c.len() - 1]);
                    } else if k2 < r.len() && k1 == r.len() {
                        let j = choose|j: int| 0 <= j < d.len() && d[j] == r[k2];
                        assert(c[j] == c[c.len() - 1]);
                    } else if k1 < r.len() && k2 < r.len() {
                        assert(q[k1] == r[k1] && q[k2] == r[k2]);
                    }
                }
            }
        } else {
            if r.len() == 0 {
                assert forall|k: int| 0 <= k < c.len() implies is_key(#[trigger] c[k], lp, n) by {
                    if k < d.len() {
                        assert(d[k] == c[k]);
                    }
                }
            }
            if forall|k1: int, k2: int|
                0 <= k1 < c.len() && 0 <= k2 < c.len() && #[trigger] c[k1] == #[trigger] c[k2]
                    ==> k1 == k2 {
                assert forall|k1: int, k2: int|
                    0 <= k1 < d.len() && 0 <= k2 < d.len() && #[trigger] d[k1] == #[trigger] d[k2]
                        implies k1 == k2 by {
                    assert(c[k1] == d[k1] && c[k2] == d[k2]);
                }
            }
        }
    }
}

/// No contribution on the side is `lp`'s at notional `n`.
pub open spec fn lacks(s: Seq<LevelModel>, lp: Seq<char>, n: u64) -> bool {
    forall|i: int, k: int|
        0 <= i < s.len() && 0 <= k < s[i].contribs.len() ==> !is_key(
            #[trigger] s[i].contribs[k],
            lp,
            n,
        )
}

proof fn lemma_remove_keeps(t: Seq<LevelModel>, k: int)
    requires
        0 <= k < t.len(),
        volumes_are_sums(t),
        distinct_prices(t),
        unique_contribs(t),
        forall|i: int| 0 <= i < t.len() && i != k ==> #[trigger] t[i].contribs.len() > 0,
    ensures
        levels_ok(t.remove(k)),
{
    let r = t.remove(k);
    assert forall|i: int| 0 <= i < r.len() implies #[trigger] r[i] == t[if i < k {
        i
    } else {
        i + 1
    }] by {}
    assert forall|i: int| 0 <= i < r.len() implies #[trigger] r[i].volume == sum_notional(
        r[i].contribs,
    ) by {
        assert(r[i] == t[if i < k { i } else { i + 1 }]);
    }
    assert forall|i: int| 0 <= i < r.len() implies #[trigger] r[i].contribs.len() > 0 by {
        assert(r[i] == t[if i < k { i } else { i + 1 }]);
    }
    assert forall|i: int, j: int|
        0 <= i < r.len() && 0 <= j < r.len() && i != j implies #[trigger] r[i].price
            != #[trigger] r[j].price by {
        assert(r[i] == t[if i < k { i } else { i + 1 }]);
        assert(r[j] == t[if j < k { j } else { j + 1 }]);
    }
    assert forall|i1: int, k1: int, i2: int, k2: int|
        0 <= i1 < r.len() && 0 <= i2 < r.len() && 0 <= k1 < r[i1].contribs.len() && 0 <= k2
            < r[i2].contribs.len() && #[trigger] r[i1].contribs[k1] == #[trigger] r[i2].contribs[k2]
        implies i1 == i2 && k1 == k2 by {
        let a = if i1 < k { i1 } else { i1 + 1 };
        let b = if i2 < k { i2 } else { i2 + 1 };
        assert(r[i1] == t[a]);
        assert(r[i2] == t[b]);
        assert(t[a].contribs[k1] == t[b].contribs[k2]);
    }
}

proof fn lemma_retire_ok(s: Seq<LevelModel>, lp: Seq<char>, n: u64, slack: int)
    requires
        levels_ok(s),
        room(s, slack),
        slack >= 0,
    ensures
        levels_ok(retire_side(s, lp, n)),
        room(retire_side(s, lp, n), slack),
        lacks(retire_side(s, lp, n), lp, n),
{
    lemma_retire_room(s, lp, n, slack);
    let t = retired_levels(s, lp, n);
    assert forall|i: int| 0 <= i < t.len() implies #[trigger] t[i].contribs == kept(
        s[i].contribs,
        lp,
        n,
    ) && t[i].price == s[i].price && t[i].volume == sum_notional(t[i].contribs) by {
        crate::model::lemma_kept_sum_le(s[i].contribs, lp, n);
    }
    assert forall|i: int, j: int|
        0 <= i < t.len() && 0 <= j < t.len() && i != j implies #[trigger] t[i].price
            != #[trigger] t[j].price by {
        assert(t[i].price == s[i].price && t[j].price == s[j].price);
    }
    assert forall|i1: int, k1: int, i2: int, k2: int|
        0 <= i1 < t.len() && 0 <= i2 < t.len() && 0 <= k1 < t[i1].contribs.len() && 0 <= k2
            < t[i2].contribs.len() && #[trigger] t[i1].contribs[k1] == #[trigger] t[i2].contribs[k2]
        implies i1 == i2 && k1 == k2 by {
        let c1 = s[i1].contribs;
        let c2 = s[i2].contribs;
        lemma_kept(c1, lp, n);
        lemma_kept(c2, lp, n);
        assert(t[i1].contribs == kept(c1, lp, n));
        assert(t[i2].contribs == kept(c2, lp, n));
        assert(c1.contains(kept(c1, lp, n)[k1]));
        assert(c2.contains(kept(c2, lp, n)[k2]));
        let a = choose|a: int| 0 <= a < c1.len() && c1[a] == kept(c1, lp, n)[k1];
        let b = choose|b: int| 0 <= b < c2.len() && c2[b] == kept(c2, lp, n)[k2];
        assert(s[i1].contribs[a] == s[i2].contribs[b]);
        assert(i1 == i2);
        assert forall|x: int, y: int|
            0 <= x < c1.len() && 0 <= y < c1.len() && #[trigger] c1[x] == #[trigger] c1[y] implies x
            == y by {
            assert(s[i1].contribs[x] == s[i1].contribs[y]);
        }
    }
    assert forall|i: int, j: int|
        0 <= i < t.len() && 0 <= j < t.len() && #[trigger] t[i].contribs.len() == 0
            && #[trigger] t[j].contribs.len() == 0 implies i == j by {
        lemma_kept(s[i].contribs, lp, n);
        lemma_kept(s[j].contribs, lp, n);
        assert(s[i].contribs.len() > 0 && s[j].contribs.len() > 0);
        assert(is_key(s[i].contribs[0], lp, n));
        assert(is_key(s[j].contribs[0], lp, n));
        assert(s[i].contribs[0] == s[j].contribs[0]);
    }
    assert forall|i: int, k: int|
        0 <= i < t.len() && 0 <= k < t[i].contribs.len() implies !is_key(
        #[trigger] t[i].contribs[k],
        lp,
        n,
    ) by {
        lemma_kept(s[i].contribs, lp, n);
        assert(t[i].contribs == kept(s[i].contribs, lp, n));
    }
    lemma_last_empty(t);
    match last_empty(t) {
        Some(k) => {
            assert forall|i: int| 0 <= i < t.len() && i != k implies #[trigger] t[i].contribs.len()
                > 0 by {
                if t[i].contribs.len() == 0 {
                    assert(t[k].contribs.len() == 0);
                }
            }
            lemma_remove_keeps(t, k);
            let r = t.remove(k);
            assert forall|i: int, j: int|
                0 <= i < r.len() && 0 <= j < r[i].contribs.len() implies !is_key(
                #[trigger] r[i].contribs[j],
                lp,
                n,
            ) by {
                assert(r[i] == t[if i < k { i } else { i + 1 }]);
            }
        },
        None => {},
    }
}

proof fn lemma_add_ok(s: Seq<LevelModel>, lp: Seq<char>, n: u64, price: u64, side: Side, slack: int)
    requires
        levels_ok(s),
        lacks(s, lp, n),
        room(s, slack),
        n <= slack <= u64::MAX,
    ensures
        levels_ok(side_add(s, lp, n, price, side)),
        room(side_add(s, lp, n, price, side), slack - n),
{
    lemma_add_room(s, lp, n, price, side, slack);
    lemma_price_index(s, price);
    let k = price_index(s, price);
    let r = side_add(s, lp, n, price, side);
    let x = (lp, n);
    assert(is_key(x, lp, n));
    if k < s.len() {
        assert forall|i: int| 0 <= i < r.len() && i != k implies #[trigger] r[i] == s[i] by {}
        assert(r[k].contribs == s[k].contribs.push(x));
        assert(r[k].price == s[k].price);
        assert forall|i: int| 0 <= i < r.len() implies #[trigger] r[i].contribs.len() > 0 by {
            if i != k {
                assert(r[i] == s[i]);
            }
        }
        assert forall|i: int, j: int|
            0 <= i < r.len() && 0 <= j < r.len() && i != j implies #[trigger] r[i].price
                != #[trigger] r[j].price by {
            assert(r[i].price == s[i].price);
            assert(r[j].price == s[j].price);
        }
        assert forall|i1: int, k1: int, i2: int, k2: int|
            0 <= i1 < r.len() && 0 <= i2 < r.len() && 0 <= k1 < r[i1].contribs.len() && 0 <= k2
                < r[i2].contribs.len() && #[trigger] r[i1].contribs[k1]
                == #[trigger] r[i2].contribs[k2] implies i1 == i2 && k1 == k2 by {
            let e1 = r[i1].contribs[k1];
            let e2 = r[i2].contribs[k2];
            let new1 = i1 == k && k1 == s[k].contribs.len();
            let new2 = i2 == k && k2 == s[k].contribs.len();
            if !new1 {
                assert(r[i1].contribs[k1] == s[i1].contribs[k1]);
            }
            if !new2 {
                assert(r[i2].contribs[k2] == s[i2].contribs[k2]);
            }
            if new1 && !new2 {
                assert(!is_key(s[i2].contribs[k2], lp, n));
            } else if new2 && !new1 {
                assert(!is_key(s[i1].contribs[k1], lp, n));
            }
        }
    } else {
        let l = r[s.len() as int];
        assert(l.contribs == seq![x]);
        assert forall|i: int| 0 <= i < s.len() implies #[trigger] r[i] == s[i] by {}
        assert forall|i: int| 0 <= i < r.len() implies #[trigger] r[i].contribs.len() > 0 by {
            if i < s.len() {
                assert(r[i] == s[i]);
            }
        }
        assert forall|i: int, j: int|
            0 <= i < r.len() && 0 <= j < r.len() && i != j implies #[trigger] r[i].price
                != #[trigger] r[j].price by {
            if i < s.len() && j < s.len() {
                assert(r[i] == s[i] && r[j] == s[j]);
            } else if i < s.len() {
                assert(r[i] == s[i]);
                assert(s[i].price != price);
            } else if j < s.len() {
                assert(r[j] == s[j]);
                assert(s[j].price != price);
            }
        }
        assert forall|i1: int, k1: int, i2: int, k2: int|
            0 <= i1 < r.len() && 0 <= i2 < r.len() && 0 <= k1 < r[i1].contribs.len() && 0 <= k2
                < r[i2].contribs.len() && #[trigger] r[i1].contribs[k1]
                == #[trigger] r[i2].contribs[k2] implies i1 == i2 && k1 == k2 by {
            if i1 < s.len() {
                assert(r[i1] == s[i1]);
            }
            if i2 < s.len() {
                assert(r[i2] == s[i2]);
            }
            if i1 < s.len() && i2 == s.len() {
                assert(!is_key(s[i1].contribs[k1], lp, n));
            } else if i2 < s.len() && i1 == s.len() {
                assert(!is_key(s[i2].contribs[k2], lp, n));
            }
        }
    }
}

proof fn lemma_step_ok(b: BookModel, lp: Seq<char>, n: u64, price: u64, side: Side, slack: int)
    requires
        levels_ok(side_of(b, side)),
        room(side_of(b, side), slack),
        n <= slack <= u64::MAX,
    ensures
        levels_ok(side_of(step(b, lp, n, price, side), side)),
        room(side_of(step(b, lp, n, price, side), side), slack - n),
        side == Side::Buy ==> step(b, lp, n, price, side).asks == b.asks,
        side == Side::Sell ==> step(b, lp, n, price, side).bids == b.bids,
{
    let t = retire_side(side_of(b, side), lp, n);
    lemma_retire_ok(side_of(b, side), lp, n, slack);
    lemma_add_ok(t, lp, n, price, side, slack);
    let b1 = with_side(b, side, t);
    assert(side_of(b1, side) == t);
    if b1.bids.len() == 0 && b1.asks.len() == 0 && side == Side::Sell {
        assert forall|i: int| 0 <= i < t.len() implies sum_notional(#[trigger] t[i].contribs) + (
        slack - n) <= u64::MAX by {}
    }
}

proof fn lemma_insert_pos(t: Seq<LevelModel>, x: LevelModel, side: Side)
    ensures
        0 <= insert_pos(t, x, side) <= t.len(),
        forall|k: int|
            insert_pos(t, x, side) <= k < t.len() ==> ahead(side, x.price, #[trigger] t[k].price),
        is_sorted(t, side) ==> forall|k: int|
            0 <= k < insert_pos(t, x, side) ==> !ahead(side, x.price, #[trigger] t[k].price),
    decreases t.len(),
{
    if t.len() > 0 {
        let d = t.drop_last();
        lemma_insert_pos(d, x, side);
        assert forall|k: int| 0 <= k < d.len() implies #[trigger] d[k] == t[k] by {}
        if ahead(side, x.price, t.last().price) {
            assert(insert_pos(t, x, side) == insert_pos(d, x, side));
            assert forall|k: int| insert_pos(t, x, side) <= k < t.len() implies ahead(
                side,
                x.price,
                #[trigger] t[k].price,
            ) by {
                if k < d.len() {
                    assert(d[k] == t[k]);
                }
            }
        } else {
            assert(insert_pos(t, x, side) == t.len());
        }
        if is_sorted(t, side) {
            assert(is_sorted(d, side)) by {
                assert forall|i: int, j: int| 0 <= i < j < d.len() implies !ahead(
                    side,
                    d[j].price,
                    d[i].price,
                ) by {
                    assert(d[i] == t[i] && d[j] == t[j]);
                }
            }
            if ahead(side, x.price, t.last().price) {
                assert forall|k: int| 0 <= k < insert_pos(t, x, side) implies !ahead(
                    side,
                    x.price,
                    #[trigger] t[k].price,
                ) by {
                    assert(d[k] == t[k]);
                }
            } else {
                assert forall|k: int| 0 <= k < t.len() implies !ahead(
                    side,
                    x.price,
                    #[trigger] t[k].price,
                ) by {
                    if k < t.len() - 1 {
                        assert(!ahead(side, t[t.len() - 1].price, t[k].price));
                    }
                }
            }
        }
    }
}

/// Insertion at `insert_pos` keeps a side sorted.
proof fn lemma_insert_sorted(t: Seq<LevelModel>, x: LevelModel, side: Side)
    requires
        is_sorted(t, side),
    ensures
        is_sorted(t.insert(insert_pos(t, x, side), x), side),
{
    lemma_insert_pos(t, x, side);
    let p = insert_pos(t, x, side);
    let r = t.insert(p, x);
    assert forall|i: int, j: int| 0 <= i < j < r.len() implies !ahead(
        side,
        r[j].price,
        r[i].price,
    ) by {
        if j < p {
            assert(r[i] == t[i] && r[j] == t[j]);
        } else if j == p {
            assert(r[i] == t[i]);
        } else if i == p {
            assert(r[j] == t[j - 1]);
            assert(ahead(side, x.price, t[j - 1].price));
        } else if i < p {
            assert(r[i] == t[i] && r[j] == t[j - 1]);
        } else {
            assert(r[i] == t[i - 1] && r[j] == t[j - 1]);
        }
    }
}

/// The sort is sorted, as long as its input, and holds only levels of its
/// input.
proof fn lemma_sort_sorted(s: Seq<LevelModel>, side: Side)
    ensures
        is_sorted(sorted_levels(s, side), side),
        sorted_levels(s, side).len() == s.len(),
        forall|i: int|
            0 <= i < s.len() ==> exists|j: int|
                0 <= j < s.len() && #[trigger] sorted_levels(s, side)[i] == s[j],
    decreases s.len(),
{
    if s.len() > 0 {
        let d = s.drop_last();
        let x = s.last();
        lemma_sort_sorted(d, side);
        let t = sorted_levels(d, side);
        lemma_insert_sorted(t, x, side);
        lemma_insert_pos(t, x, side);
        let p = insert_pos(t, x, side);
        let r = t.insert(p, x);
        assert forall|i: int| 0 <= i < s.len() implies exists|j: int|
            0 <= j < s.len() && #[trigger] r[i] == s[j] by {
            if i < p {
                let j = choose|j: int| 0 <= j < d.len() && t[i] == d[j];
                assert(r[i] == s[j]);
            } else if i == p {
                assert(r[i] == s[s.len() - 1]);
            } else {
                let j = choose|j: int| 0 <= j < d.len() && t[i - 1] == d[j];
                assert(r[i] == s[j]);
            }
        }
    }
}

proof fn lemma_drop_last_ok(s: Seq<LevelModel>)
    requires
        levels_ok(s),
        s.len() > 0,
    ensures
        levels_ok(s.drop_last()),
{
    let d = s.drop_last();
    assert forall|i: int| 0 <= i < d.len() implies #[trigger] d[i] == s[i] by {}
    assert forall|i1: int, k1: int, i2: int, k2: int|
        0 <= i1 < d.len() && 0 <= i2 < d.len() && 0 <= k1 < d[i1].contribs.len() && 0 <= k2
            < d[i2].contribs.len() && #[trigger] d[i1].contribs[k1] == #[trigger] d[i2].contribs[k2]
        implies i1 == i2 && k1 == k2 by {
        assert(d[i1] == s[i1] && d[i2] == s[i2]);
    }
}

/// Sorting keeps the level invariants.
proof fn lemma_sort_ok(s: Seq<LevelModel>, side: Side)
    requires
        levels_ok(s),
    ensures
        levels_ok(sorted_levels(s, side)),
        strictly_sorted(sorted_levels(s, side), side),
    decreases s.len(),
{
    lemma_sort_sorted(s, side);
    let r = sorted_levels(s, side);
    if s.len() > 0 {
        let n = s.len();
        let d = s.drop_last();
        let x = s.last();
        lemma_drop_last_ok(s);
        lemma_sort_ok(d, side);
        lemma_sort_sorted(d, side);
        let t = sorted_levels(d, side);
        lemma_insert_pos(t, x, side);
        let p = insert_pos(t, x, side);
        assert(r == t.insert(p, x));
        assert forall|i: int| 0 <= i < d.len() implies #[trigger] d[i] == s[i] by {}
        assert forall|i: int| 0 <= i < r.len() implies #[trigger] r[i] == (if i < p {
            t[i]
        } else if i == p {
            x
        } else {
            t[i - 1]
        }) by {}
        assert forall|i: int| 0 <= i < r.len() implies #[trigger] r[i].volume == sum_notional(
            r[i].contribs,
        ) && r[i].contribs.len() > 0 by {
            let j = choose|j: int| 0 <= j < s.len() && r[i] == s[j];
            assert(s[j].volume == sum_notional(s[j].contribs));
            assert(s[j].contribs.len() > 0);
        }
        assert forall|k: int| 0 <= k < t.len() implies exists|m: int|
            0 <= m < n - 1 && #[trigger] t[k] == s[m] by {
            let m = choose|m: int| 0 <= m < d.len() && t[k] == d[m];
            assert(t[k] == s[m]);
        }
        assert forall|i: int, j: int|
            0 <= i < r.len() && 0 <= j < r.len() && i != j implies #[trigger] r[i].price
                != #[trigger] r[j].price by {
            if i == p {
                let k = if j < p { j } else { j - 1 };
                let m = choose|m: int| 0 <= m < n - 1 && t[k] == s[m];
                assert(s[m].price != s[n - 1].price);
            } else if j == p {
                let k = if i < p { i } else { i - 1 };
                let m = choose|m: int| 0 <= m < n - 1 && t[k] == s[m];
                assert(s[m].price != s[n - 1].price);
            } else {
                let a = if i < p { i } else { i - 1 };
                let b = if j < p { j } else { j - 1 };
                assert(t[a].price != t[b].price);
            }
        }
        assert forall|i1: int, k1: int, i2: int, k2: int|
            0 <= i1 < r.len() && 0 <= i2 < r.len() && 0 <= k1 < r[i1].contribs.len() && 0 <= k2
                < r[i2].contribs.len() && #[trigger] r[i1].contribs[k1]
                == #[trigger] r[i2].contribs[k2] implies i1 == i2 && k1 == k2 by {
            if i1 == p && i2 == p {
                assert(s[n - 1].contribs[k1] == s[n - 1].contribs[k2]);
            } else if i1 == p {
                let k = if i2 < p { i2 } else { i2 - 1 };
                let m = choose|m: int| 0 <= m < n - 1 && t[k] == s[m];
                assert(s[n - 1].contribs[k1] == s[m].contribs[k2]);
            } else if i2 == p {
                let k = if i1 < p { i1 } else { i1 - 1 };
                let m = choose|m: int| 0 <= m < n - 1 && t[k] == s[m];
                assert(s[m].contribs[k1] == s[n - 1].contribs[k2]);
            } else {
                let a = if i1 < p { i1 } else { i1 - 1 };
                let b = if i2 < p { i2 } else { i2 - 1 };
                assert(t[a].contribs[k1] == t[b].contribs[k2]);
            }
        }
    }
    assert forall|i: int, j: int| 0 <= i < j < r.len() implies ahead(
        side,
        r[i].price,
        r[j].price,
    ) by {
        assert(!ahead(side, r[j].price, r[i].price));
        assert(r[i].price != r[j].price);
    }
}

proof fn lemma_skip_ok(s: Seq<LevelModel>, side: Side, m: int)
    requires
        levels_ok(s),
        strictly_sorted(s, side),
        0 <= m <= s.len(),
    ensures
        levels_ok(s.skip(m)),
        strictly_sorted(s.skip(m), side),
{
    let r = s.skip(m);
    assert forall|i: int| 0 <= i < r.len() implies #[trigger] r[i] == s[i + m] by {}
    assert forall|i: int| 0 <= i < r.len() implies #[trigger] r[i].volume == sum_notional(
        r[i].contribs,
    ) && r[i].contribs.len() > 0 by {
        assert(r[i] == s[i + m]);
    }
    assert forall|i: int, j: int|
        0 <= i < r.len() && 0 <= j < r.len() && i != j implies #[trigger] r[i].price
            != #[trigger] r[j].price by {
        assert(r[i] == s[i + m] && r[j] == s[j + m]);
    }
    assert forall|i: int, j: int| 0 <= i < j < r.len() implies ahead(
        side,
        r[i].price,
        r[j].price,
    ) by {
        assert(r[i] == s[i + m] && r[j] == s[j + m]);
    }
    assert forall|i1: int, k1: int, i2: int, k2: int|
        0 <= i1 < r.len() && 0 <= i2 < r.len() && 0 <= k1 < r[i1].contribs.len() && 0 <= k2
            < r[i2].contribs.len() && #[trigger] r[i1].contribs[k1] == #[trigger] r[i2].contribs[k2]
        implies i1 == i2 && k1 == k2 by {
        assert(r[i1] == s[i1 + m] && r[i2] == s[i2 + m]);
        assert(s[i1 + m].contribs[k1] == s[i2 + m].contribs[k2]);
    }
}

/// The sides of a book are sorted and keep the level invariants.
pub open spec fn sides_ok(b: BookModel) -> bool {
    &&& levels_ok(b.bids)
    &&& levels_ok(b.asks)
    &&& strictly_sorted(b.bids, Side::Buy)
    &&& strictly_sorted(b.asks, Side::Sell)
}

proof fn lemma_uncross_ok(b: BookModel)
    requires
        sides_ok(b),
    ensures
        sides_ok(crate::model::uncrossed(b)),
{
    match crate::model::crossed_at(b) {
        Some((k, p)) => {
            crate::model::lemma_last_ask_at_or_below(b.asks, b.bids[0].price);
            crate::model::lemma_last_bid_at_or_above(b.bids, p);
            if b.bids.len() > b.asks.len() {
                match crate::model::last_bid_at_or_above(b.bids, p) {
                    Some(j) => lemma_skip_ok(b.bids, Side::Buy, j + 1),
                    None => {},
                }
            } else {
                lemma_skip_ok(b.asks, Side::Sell, k + 1);
            }
        },
        None => {},
    }
}

proof fn lemma_spread_ok(b: BookModel)
    requires
        sides_ok(b),
    ensures
        sides_ok(crate::model::spread_kept(b)),
        spread_ok(crate::model::spread_kept(b)),
    decreases b.bids.len() + b.asks.len(),
{
    if b.bids.len() > 0 && b.asks.len() > 0 && crate::model::too_close(
        b.bids[0].price,
        b.asks[0].price,
    ) {
        if b.bids.len() >= b.asks.len() {
            lemma_skip_ok(b.bids, Side::Buy, 1);
            assert(b.bids.skip(1) =~= b.bids.drop_first());
            lemma_spread_ok(BookModel { bids: b.bids.drop_first(), ..b });
        } else {
            lemma_skip_ok(b.asks, Side::Sell, 1);
            assert(b.asks.skip(1) =~= b.asks.drop_first());
            lemma_spread_ok(BookModel { asks: b.asks.drop_first(), ..b });
        }
    }
}

/// After a quote is applied to a book that holds the invariants, they hold
/// again: every level's volume is the sum of its contributions, no level is
/// empty, bids strictly fall and asks strictly rise in price, the best ask
/// stays more than the minimum spread above the best bid, and each
/// `(lp, notional)` contribution stands at most once on each side.
pub proof fn lemma_apply_keeps_invariants(b: BookModel, q: QuoteModel)
    requires
        book_wf(b),
        room(b.bids, 9),
        room(b.asks, 9),
    ensures
        volumes_are_sums(apply_quote(b, q).bids),
        volumes_are_sums(apply_quote(b, q).asks),
        nonempty_levels(apply_quote(b, q).bids),
        nonempty_levels(apply_quote(b, q).asks),
        strictly_sorted(apply_quote(b, q).bids, Side::Buy),
        strictly_sorted(apply_quote(b, q).asks, Side::Sell),
        spread_ok(apply_quote(b, q)),
        unique_contribs(apply_quote(b, q).bids),
        unique_contribs(apply_quote(b, q).asks),
        book_wf(apply_quote(b, q)),
{
    let b0 = BookModel { ts: q.ts, ..b };
    lemma_step_ok(b0, q.lp, 1, q.one_mill_buy, Side::Buy, 9);
    let b1 = step(b0, q.lp, 1, q.one_mill_buy, Side::Buy);
    lemma_step_ok(b1, q.lp, 1, q.one_mill_sell, Side::Sell, 9);
    let b2 = step(b1, q.lp, 1, q.one_mill_sell, Side::Sell);
    lemma_step_ok(b2, q.lp, 3, q.three_mill_buy, Side::Buy, 8);
    let b3 = step(b2, q.lp, 3, q.three_mill_buy, Side::Buy);
    lemma_step_ok(b3, q.lp, 3, q.three_mill_sell, Side::Sell, 8);
    let b4 = step(b3, q.lp, 3, q.three_mill_sell, Side::Sell);
    lemma_step_ok(b4, q.lp, 5, q.five_mill_buy, Side::Buy, 5);
    let b5 = step(b4, q.lp, 5, q.five_mill_buy, Side::Buy);
    lemma_step_ok(b5, q.lp, 5, q.five_mill_sell, Side::Sell, 5);
    let b6 = step(b5, q.lp, 5, q.five_mill_sell, Side::Sell);
    lemma_sort_ok(b6.bids, Side::Buy);
    lemma_sort_ok(b6.asks, Side::Sell);
    let b7 = sorted_book(b6);
    lemma_uncross_ok(b7);
    lemma_spread_ok(crate::model::uncrossed(b7));
}

/// A side that is already sorted is left as it is by sorting.
proof fn lemma_sorted_fixed(s: Seq<LevelModel>, side: Side)
    requires
        is_sorted(s, side),
    ensures
        sorted_levels(s, side) == s,
    decreases s.len(),
{
    if s.len() > 0 {
        let d = s.drop_last();
        assert(is_sorted(d, side)) by {
            assert forall|i: int, j: int| 0 <= i < j < d.len() implies !ahead(
                side,
                d[j].price,
                d[i].price,
            ) by {
                assert(d[i] == s[i] && d[j] == s[j]);
            }
        }
        lemma_sorted_fixed(d, side);
        if d.len() > 0 {
            assert(!ahead(side, s[s.len() - 1].price, s[s.len() - 2].price));
            assert(d.last() == s[s.len() - 2]);
        }
        assert(insert_pos(d, s.last(), side) == d.len());
        assert(d.insert(d.len() as int, s.last()) =~= s);
    }
}

/// Sorting a side twice gives what sorting it once gives.
pub proof fn lemma_sort_idempotent(s: Seq<LevelModel>, side: Side)
    ensures
        sorted_levels(sorted_levels(s, side), side) == sorted_levels(s, side),
{
    lemma_sort_sorted(s, side);
    lemma_sorted_fixed(sorted_levels(s, side), side);
}

proof fn lemma_spread_kept_ts(b: BookModel)
    ensures
        crate::model::spread_kept(b).ts == b.ts,
    decreases b.bids.len() + b.asks.len(),
{
    if b.bids.len() > 0 && b.asks.len() > 0 && crate::model::too_close(
        b.bids[0].price,
        b.asks[0].price,
    ) {
        if b.bids.len() >= b.asks.len() {
            lemma_spread_kept_ts(BookModel { bids: b.bids.drop_first(), ..b });
        } else {
            lemma_spread_kept_ts(BookModel { asks: b.asks.drop_first(), ..b });
        }
    }
}

/// Applying a quote stamps the book with the quote's timestamp.
proof fn lemma_apply_ts(b: BookModel, q: QuoteModel)
    ensures
        apply_quote(b, q).ts == q.ts,
{
    let b0 = BookModel { ts: q.ts, ..b };
    let b1 = step(b0, q.lp, 1, q.one_mill_buy, Side::Buy);
    let b2 = step(b1, q.lp, 1, q.one_mill_sell, Side::Sell);
    let b3 = step(b2, q.lp, 3, q.three_mill_buy, Side::Buy);
    let b4 = step(b3, q.lp, 3, q.three_mill_sell, Side::Sell);
    let b5 = step(b4, q.lp, 5, q.five_mill_buy, Side::Buy);
    let b6 = step(b5, q.lp, 5, q.five_mill_sell, Side::Sell);
    assert(b6.ts == q.ts);
    lemma_spread_kept_ts(crate::model::uncrossed(sorted_book(b6)));
}

/// Quotes applied in order of non-decreasing timestamps leave the book's
/// timestamp non-decreasing.
pub proof fn lemma_timestamp_monotone(b: BookModel, q1: QuoteModel, q2: QuoteModel)
    requires
        q1.ts <= q2.ts,
    ensures
        apply_quote(b, q1).ts <= apply_quote(apply_quote(b, q1), q2).ts,
{
    lemma_apply_ts(b, q1);
    lemma_apply_ts(apply_quote(b, q1), q2);
}

/// Retiring the one contribution of a level deletes that level: the side
/// loses one level and no level is left at its price.
pub proof fn lemma_retire_deletes_sole_level(s: Seq<LevelModel>, i: int, lp: Seq<char>, n: u64)
    requires
        levels_ok(s),
        room(s, 0),
        0 <= i < s.len(),
        s[i].contribs == seq![(lp, n)],
    ensures
        retire_side(s, lp, n).len() == s.len() - 1,
        forall|j: int|
            0 <= j < retire_side(s, lp, n).len() ==> #[trigger] retire_side(s, lp, n)[j].price
                != s[i].price,
{
    let t = retired_levels(s, lp, n);
    let c = s[i].contribs;
    assert(c.drop_last() =~= Seq::<(Seq<char>, u64)>::empty());
    assert(kept(c.drop_last(), lp, n) =~= Seq::<(Seq<char>, u64)>::empty());
    assert(t[i].contribs.len() == 0);
    lemma_last_empty(t);
    assert forall|k: int| 0 <= k < t.len() && k != i implies #[trigger] t[k].contribs.len() > 0 by {
        if t[k].contribs.len() == 0 {
            lemma_kept(s[k].contribs, lp, n);
            assert(s[k].contribs.len() > 0);
            assert(is_key(s[k].contribs[0], lp, n));
            assert(s[k].contribs[0] == s[i].contribs[0]);
        }
    }
    assert(last_empty(t) == Some(i));
    let r = t.remove(i);
    assert forall|j: int| 0 <= j < r.len() implies #[trigger] r[j].price != s[i].price by {
        let m = if j < i { j } else { j + 1 };
        assert(r[j] == t[m]);
        assert(t[m].price == s[m].price);
    }
}

/// Re-quoting `lp` at notional `n` leaves exactly one such contribution on
/// the side, at the new price: the old placement is gone and the totals hold
/// it once.
pub proof fn lemma_requote_relocates(
    b: BookModel,
    lp: Seq<char>,
    n: u64,
    price: u64,
    side: Side,
    slack: int,
)
    requires
        levels_ok(side_of(b, side)),
        room(side_of(b, side), slack),
        n <= slack <= u64::MAX,
        side == Side::Buy || b.bids.len() > 0,
    ensures
        ({
            let r = side_of(step(b, lp, n, price, side), side);
            &&& exists|i: int, k: int|
                0 <= i < r.len() && 0 <= k < r[i].contribs.len() && #[trigger] r[i].contribs[k] == (
                lp,
                n,
            ) && r[i].price == price
            &&& unique_contribs(r)
        }),
{
    let t = retire_side(side_of(b, side), lp, n);
    lemma_step_ok(b, lp, n, price, side, slack);
    lemma_price_index(t, price);
    let r = side_of(step(b, lp, n, price, side), side);
    assert(r == side_add(t, lp, n, price, side));
    let k = price_index(t, price);
    if k < t.len() {
        assert(r[k].contribs[t[k].contribs.len() as int] == (lp, n));
    } else {
        assert(r[t.len() as int].contribs[0] == (lp, n));
    }
}

/// A crossed book with as many bids as asks is repaired by cutting the asks
/// up to the deepest crossed one.
pub proof fn lemma_uncross_tie_cuts_asks(b: BookModel)
    requires
        b.bids.len() == b.asks.len(),
        crate::model::crossed_at(b) is Some,
    ensures
        crate::model::uncrossed(b) == (BookModel {
            asks: b.asks.skip(crate::model::crossed_at(b)->Some_0.0 + 1),
            ..b
        }),
{
}

/// While the spread is too narrow and the sides are equally long, the best
/// bid is the level removed.
pub proof fn lemma_spread_tie_cuts_bid(b: BookModel)
    requires
        b.bids.len() == b.asks.len(),
        b.bids.len() > 0,
        crate::model::too_close(b.bids[0].price, b.asks[0].price),
    ensures
        crate::model::spread_kept(b) == crate::model::spread_kept(
            BookModel { bids: b.bids.drop_first(), ..b },
        ),
{
}

} // verus!
