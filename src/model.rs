//! Mathematical model of the book: levels, sides and every step of the
//! update pipeline as spec functions.
use vstd::prelude::*;

verus! {

/// Which side of the book a level belongs to.
#[derive(Clone, Copy, Debug, PartialEq, Eq, Structural)]
pub enum Side {
    Buy,
    Sell,
}

/// Smallest gap, in pips, that the best ask must keep above the best bid
/// (the book keeps a gap strictly larger than this).
pub const MIN_SPREAD_PIPS: u64 = 6;

/// A price level as mathematics sees it.
pub struct LevelModel {
    pub contribs: Seq<(Seq<char>, u64)>,
    pub volume: u64,
    pub price: u64,
    pub side: Side,
}

/// The whole book as mathematics sees it.
pub struct BookModel {
    pub pair: Seq<char>,
    pub bids: Seq<LevelModel>,
    pub asks: Seq<LevelModel>,
    pub ts: u64,
}

/// `a` is a better price than `b` on `side`: higher for bids, lower for asks.
pub open spec fn ahead(side: Side, a: u64, b: u64) -> bool {
    match side {
        Side::Buy => a > b,
        Side::Sell => a < b,
    }
}

// ---------------------------------------------------------------- sorting

/// Where a stable insertion puts `x` into `s`: after every level that `x`
/// does not strictly beat.
pub open spec fn insert_pos(s: Seq<LevelModel>, x: LevelModel, side: Side) -> int
    decreases s.len(),
{
    if s.len() == 0 {
        0
    } else if ahead(side, x.price, s.last().price) {
        insert_pos(s.drop_last(), x, side)
    } else {
        s.len() as int
    }
}

/// The stable sort of a side, best price first.
pub open spec fn sorted_levels(s: Seq<LevelModel>, side: Side) -> Seq<LevelModel>
    decreases s.len(),
{
    if s.len() == 0 {
        s
    } else {
        let t = sorted_levels(s.drop_last(), side);
        t.insert(insert_pos(t, s.last(), side), s.last())
    }
}

/// No level comes after one with a worse price.
pub open spec fn is_sorted(s: Seq<LevelModel>, side: Side) -> bool {
    forall|i: int, j: int| 0 <= i < j < s.len() ==> !ahead(side, s[j].price, s[i].price)
}

/// Every level has a strictly better price than the levels after it.
pub open spec fn strictly_sorted(s: Seq<LevelModel>, side: Side) -> bool {
    forall|i: int, j: int| 0 <= i < j < s.len() ==> ahead(side, s[i].price, s[j].price)
}

// ---------------------------------------------------------------- retiring

/// Contribution `c` is provider `lp`'s contribution at notional `n`.
pub open spec fn is_key(c: (Seq<char>, u64), lp: Seq<char>, n: u64) -> bool {
    c.0 == lp && c.1 == n
}

/// The contributions that are not `lp`'s at notional `n`, in their order.
pub open spec fn kept(s: Seq<(Seq<char>, u64)>, lp: Seq<char>, n: u64) -> Seq<(Seq<char>, u64)>
    decreases s.len(),
{
    if s.len() == 0 {
        s
    } else if is_key(s.last(), lp, n) {
        kept(s.drop_last(), lp, n)
    } else {
        kept(s.drop_last(), lp, n).push(s.last())
    }
}

/// Total notional of a list of contributions.
pub open spec fn sum_notional(s: Seq<(Seq<char>, u64)>) -> int
    decreases s.len(),
{
    if s.len() == 0 {
        0
    } else {
        sum_notional(s.drop_last()) + s.last().1
    }
}

/// A level with `lp`'s contribution at notional `n` taken out and its volume
/// recomputed.
pub open spec fn retired_level(l: LevelModel, lp: Seq<char>, n: u64) -> LevelModel {
    LevelModel {
        contribs: kept(l.contribs, lp, n),
        volume: sum_notional(kept(l.contribs, lp, n)) as u64,
        price: l.price,
        side: l.side,
    }
}

/// Every level of a side with `lp`'s contribution at notional `n` taken out.
pub open spec fn retired_levels(s: Seq<LevelModel>, lp: Seq<char>, n: u64) -> Seq<LevelModel> {
    s.map_values(|l: LevelModel| retired_level(l, lp, n))
}

/// The last index of a level without contributions, if any.
pub open spec fn last_empty(s: Seq<LevelModel>) -> Option<int>
    decreases s.len(),
{
    if s.len() == 0 {
        None
    } else if s.last().contribs.len() == 0 {
        Some(s.len() - 1)
    } else {
        last_empty(s.drop_last())
    }
}

/// Retires `lp`'s contribution at notional `n` from a side, then deletes the
/// last level that this left empty (at most one level is deleted).
pub open spec fn retire_side(s: Seq<LevelModel>, lp: Seq<char>, n: u64) -> Seq<LevelModel> {
    let t = retired_levels(s, lp, n);
    match last_empty(t) {
        Some(i) => t.remove(i),
        None => t,
    }
}

/// Every level's contributions sum to at most `u64::MAX - slack`.
pub open spec fn room(s: Seq<LevelModel>, slack: int) -> bool {
    forall|i: int| 0 <= i < s.len() ==> sum_notional(#[trigger] s[i].contribs) + slack <= u64::MAX
}

// ---------------------------------------------------------------- inserting

/// The index of the first level at `price`, or the length of the side when
/// there is none.
pub open spec fn price_index(s: Seq<LevelModel>, price: u64) -> int
    decreases s.len(),
{
    if s.len() == 0 {
        0
    } else {
        let k = price_index(s.drop_last(), price);
        if k < s.len() - 1 {
            k
        } else if s.last().price == price {
            s.len() - 1
        } else {
            s.len() as int
        }
    }
}

/// A fresh level holding one contribution.
pub open spec fn new_level(lp: Seq<char>, n: u64, price: u64, side: Side) -> LevelModel {
    LevelModel { contribs: seq![(lp, n)], volume: n, price, side }
}

/// Adds `lp`'s contribution of notional `n` at `price` to a side: appended to
/// the level at that price, or as a new last level.
pub open spec fn side_add(s: Seq<LevelModel>, lp: Seq<char>, n: u64, price: u64, side: Side) -> Seq<
    LevelModel,
> {
    let k = price_index(s, price);
    if k < s.len() {
        s.update(
            k,
            LevelModel {
                contribs: s[k].contribs.push((lp, n)),
                volume: (s[k].volume + n) as u64,
                price: s[k].price,
                side: s[k].side,
            },
        )
    } else {
        s.push(new_level(lp, n, price, side))
    }
}

pub open spec fn side_of(b: BookModel, side: Side) -> Seq<LevelModel> {
    match side {
        Side::Buy => b.bids,
        Side::Sell => b.asks,
    }
}

pub open spec fn with_side(b: BookModel, side: Side, s: Seq<LevelModel>) -> BookModel {
    match side {
        Side::Buy => BookModel { bids: s, ..b },
        Side::Sell => BookModel { asks: s, ..b },
    }
}

/// Adds a contribution to the book. While the book is empty an ask is
/// refused and the book stays as it is.
pub open spec fn book_add(b: BookModel, lp: Seq<char>, n: u64, price: u64, side: Side) -> BookModel {
    if b.bids.len() == 0 && b.asks.len() == 0 && side == Side::Sell {
        b
    } else {
        with_side(b, side, side_add(side_of(b, side), lp, n, price, side))
    }
}

// ---------------------------------------------------------------- uncrossing

/// The last index of a bid at or above `p`.
pub open spec fn last_bid_at_or_above(s: Seq<LevelModel>, p: u64) -> Option<int>
    decreases s.len(),
{
    if s.len() == 0 {
        None
    } else if s.last().price >= p {
        Some(s.len() - 1)
    } else {
        last_bid_at_or_above(s.drop_last(), p)
    }
}

/// The last index of an ask at or below `p`.
pub open spec fn last_ask_at_or_below(s: Seq<LevelModel>, p: u64) -> Option<int>
    decreases s.len(),
{
    if s.len() == 0 {
        None
    } else if s.last().price <= p {
        Some(s.len() - 1)
    } else {
        last_ask_at_or_below(s.drop_last(), p)
    }
}

/// Where the book is crossed: the deepest ask at or below the best bid, with
/// its price.
pub open spec fn crossed_at(b: BookModel) -> Option<(int, u64)> {
    if b.bids.len() == 0 {
        None
    } else {
        match last_ask_at_or_below(b.asks, b.bids[0].price) {
            Some(k) => Some((k, b.asks[k].price)),
            None => None,
        }
    }
}

/// Repairs a book crossed at ask index `k` with price `p`: cuts the bids at or
/// above `p` when there are more bids than asks, else asks `0..=k`.
pub open spec fn uncrossed_at(b: BookModel, k: int, p: u64) -> BookModel {
    if b.bids.len() > b.asks.len() {
        match last_bid_at_or_above(b.bids, p) {
            Some(j) => BookModel { bids: b.bids.skip(j + 1), ..b },
            None => b,
        }
    } else {
        BookModel { asks: b.asks.skip(k + 1), ..b }
    }
}

pub open spec fn uncrossed(b: BookModel) -> BookModel {
    match crossed_at(b) {
        Some((k, p)) => uncrossed_at(b, k, p),
        None => b,
    }
}

// ---------------------------------------------------------------- spread

/// The best ask is not more than the minimum spread above the best bid.
pub open spec fn too_close(bid: u64, ask: u64) -> bool {
    ask <= bid + MIN_SPREAD_PIPS
}

/// Deletes best levels, from the longer side (bids on a tie), while both
/// sides are non-empty and the spread is too narrow.
pub open spec fn spread_kept(b: BookModel) -> BookModel
    decreases b.bids.len() + b.asks.len(),
{
    if b.bids.len() > 0 && b.asks.len() > 0 && too_close(b.bids[0].price, b.asks[0].price) {
        if b.bids.len() >= b.asks.len() {
            spread_kept(BookModel { bids: b.bids.drop_first(), ..b })
        } else {
            spread_kept(BookModel { asks: b.asks.drop_first(), ..b })
        }
    } else {
        b
    }
}

// ---------------------------------------------------------------- applying a quote

/// A parsed quote as mathematics sees it: prices in pips for each tier and
/// side, and the source timestamp.
pub struct QuoteModel {
    pub lp: Seq<char>,
    pub pair: Seq<char>,
    pub one_mill_buy: u64,
    pub one_mill_sell: u64,
    pub three_mill_buy: u64,
    pub three_mill_sell: u64,
    pub five_mill_buy: u64,
    pub five_mill_sell: u64,
    pub ts: u64,
}

/// Retires `lp`'s previous contribution at notional `n` on one side, then
/// adds the new one at `price`.
pub open spec fn step(b: BookModel, lp: Seq<char>, n: u64, price: u64, side: Side) -> BookModel {
    book_add(with_side(b, side, retire_side(side_of(b, side), lp, n)), lp, n, price, side)
}

/// Both sides sorted, best price first.
pub open spec fn sorted_book(b: BookModel) -> BookModel {
    BookModel {
        bids: sorted_levels(b.bids, Side::Buy),
        asks: sorted_levels(b.asks, Side::Sell),
        ..b
    }
}

/// The book after one quote: the timestamp is taken, the six sub-quotes are
/// applied in the order 1M bid, 1M ask, 3M bid, 3M ask, 5M bid, 5M ask, both
/// sides are sorted, a crossed book is repaired and the minimum spread is
/// enforced.
pub open spec fn apply_quote(b: BookModel, q: QuoteModel) -> BookModel {
    let b0 = BookModel { ts: q.ts, ..b };
    let b1 = step(b0, q.lp, 1, q.one_mill_buy, Side::Buy);
    let b2 = step(b1, q.lp, 1, q.one_mill_sell, Side::Sell);
    let b3 = step(b2, q.lp, 3, q.three_mill_buy, Side::Buy);
    let b4 = step(b3, q.lp, 3, q.three_mill_sell, Side::Sell);
    let b5 = step(b4, q.lp, 5, q.five_mill_buy, Side::Buy);
    let b6 = step(b5, q.lp, 5, q.five_mill_sell, Side::Sell);
    spread_kept(uncrossed(sorted_book(b6)))
}

/// An index found in the model, as the engine returns it.
pub open spec fn as_index(o: Option<int>) -> Option<usize> {
    match o {
        Some(i) => Some(i as usize),
        None => None,
    }
}

// ---------------------------------------------------------------- lemmas

/// Each level's volume is the sum of its contributions.
pub open spec fn volumes_are_sums(s: Seq<LevelModel>) -> bool {
    forall|i: int| 0 <= i < s.len() ==> #[trigger] s[i].volume == sum_notional(s[i].contribs)
}

pub proof fn lemma_retire_room(s: Seq<LevelModel>, lp: Seq<char>, n: u64, slack: int)
    requires
        room(s, slack),
        slack >= 0,
    ensures
        room(retire_side(s, lp, n), slack),
        volumes_are_sums(retire_side(s, lp, n)),
{
    let t = retired_levels(s, lp, n);
    assert forall|i: int| 0 <= i < t.len() implies sum_notional(#[trigger] t[i].contribs) + slack
        <= u64::MAX && t[i].volume == sum_notional(t[i].contribs) by {
        lemma_kept_sum_le(s[i].contribs, lp, n);
    }
    lemma_last_empty(t);
    match last_empty(t) {
        Some(k) => {
            assert forall|i: int| 0 <= i < t.len() - 1 implies #[trigger] t.remove(k)[i] == (if i
                < k {
                t[i]
            } else {
                t[i + 1]
            }) by {}
        },
        None => {},
    }
}

pub proof fn lemma_add_room(
    s: Seq<LevelModel>,
    lp: Seq<char>,
    n: u64,
    price: u64,
    side: Side,
    slack: int,
)
    requires
        room(s, slack),
        volumes_are_sums(s),
        n <= slack <= u64::MAX,
    ensures
        room(side_add(s, lp, n, price, side), slack - n),
        volumes_are_sums(side_add(s, lp, n, price, side)),
        forall|i: int| 0 <= i < s.len() ==> #[trigger] s[i].volume + n <= u64::MAX,
{
    let k = price_index(s, price);
    lemma_price_index(s, price);
    let r = side_add(s, lp, n, price, side);
    if k < s.len() {
        assert(s[k].contribs.push((lp, n)).drop_last() =~= s[k].contribs);
    } else {
        let c = seq![(lp, n)];
        assert(c.drop_last() =~= Seq::<(Seq<char>, u64)>::empty());
        assert(sum_notional(c.drop_last()) == 0);
        assert(sum_notional(c) == n);
    }
    assert forall|i: int| 0 <= i < r.len() implies sum_notional(#[trigger] r[i].contribs) + (slack
        - n) <= u64::MAX && r[i].volume == sum_notional(r[i].contribs) by {
        if i < s.len() && i != k {
            assert(r[i] == s[i]);
        }
    }
}

pub proof fn lemma_last_empty(s: Seq<LevelModel>)
    ensures
        last_empty(s) matches Some(k) ==> 0 <= k < s.len() && s[k].contribs.len() == 0 && forall|
            j: int,
        | k < j < s.len() ==> #[trigger] s[j].contribs.len() > 0,
        last_empty(s) is None ==> forall|j: int| 0 <= j < s.len() ==> #[trigger] s[j].contribs.len()
            > 0,
    decreases s.len(),
{
    if s.len() > 0 {
        lemma_last_empty(s.drop_last());
        assert forall|j: int| 0 <= j < s.len() - 1 implies s.drop_last()[j] == #[trigger] s[j] by {}
    }
}

pub proof fn lemma_last_bid_at_or_above(s: Seq<LevelModel>, p: u64)
    ensures
        last_bid_at_or_above(s, p) matches Some(j) ==> 0 <= j < s.len() && s[j].price >= p,
        last_bid_at_or_above(s, p) is None ==> forall|j: int| 0 <= j < s.len() ==> s[j].price < p,
    decreases s.len(),
{
    if s.len() > 0 {
        lemma_last_bid_at_or_above(s.drop_last(), p);
        assert forall|j: int| 0 <= j < s.len() - 1 implies s.drop_last()[j] == #[trigger] s[j] by {}
    }
}

pub proof fn lemma_last_ask_at_or_below(s: Seq<LevelModel>, p: u64)
    ensures
        last_ask_at_or_below(s, p) matches Some(k) ==> 0 <= k < s.len() && s[k].price <= p,
        last_ask_at_or_below(s, p) is None ==> forall|k: int| 0 <= k < s.len() ==> s[k].price > p,
    decreases s.len(),
{
    if s.len() > 0 {
        lemma_last_ask_at_or_below(s.drop_last(), p);
        assert forall|j: int| 0 <= j < s.len() - 1 implies s.drop_last()[j] == #[trigger] s[j] by {}
    }
}

/// `price_index` is the first index at `price`, or the length when none is.
pub proof fn lemma_price_index(s: Seq<LevelModel>, price: u64)
    ensures
        0 <= price_index(s, price) <= s.len(),
        forall|j: int| 0 <= j < price_index(s, price) ==> s[j].price != price,
        price_index(s, price) < s.len() ==> s[price_index(s, price)].price == price,
    decreases s.len(),
{
    if s.len() > 0 {
        lemma_price_index(s.drop_last(), price);
        assert forall|j: int| 0 <= j < s.len() - 1 implies s.drop_last()[j] == #[trigger] s[j] by {}
    }
}

pub proof fn lemma_kept_sum_le(s: Seq<(Seq<char>, u64)>, lp: Seq<char>, n: u64)
    ensures
        0 <= sum_notional(kept(s, lp, n)) <= sum_notional(s),
    decreases s.len(),
{
    if s.len() > 0 {
        lemma_kept_sum_le(s.drop_last(), lp, n);
        let r = kept(s.drop_last(), lp, n);
        if !is_key(s.last(), lp, n) {
            assert(r.push(s.last()).drop_last() =~= r);
        }
    }
}

pub proof fn lemma_sum_prefix(s: Seq<(Seq<char>, u64)>, k: int)
    requires
        0 <= k < s.len(),
    ensures
        sum_notional(s.take(k + 1)) == sum_notional(s.take(k)) + s[k].1,
        sum_notional(s.take(k + 1)) <= sum_notional(s),
    decreases s.len(),
{
    assert(s.take(k + 1).drop_last() =~= s.take(k));
    if k + 1 < s.len() {
        lemma_sum_prefix(s.drop_last(), k);
        assert(s.drop_last().take(k + 1) =~= s.take(k + 1));
        assert(s.drop_last().take(k) =~= s.take(k));
        lemma_sum_nonneg(s.drop_last());
    } else {
        assert(s.take(k + 1) =~= s);
    }
}

pub proof fn lemma_sum_nonneg(s: Seq<(Seq<char>, u64)>)
    ensures
        sum_notional(s) >= 0,
    decreases s.len(),
{
    if s.len() > 0 {
        lemma_sum_nonneg(s.drop_last());
    }
}

} // verus!
