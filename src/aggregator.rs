//! The aggregation engine: price levels, the two sides of the book, and the
//! update pipeline (retire, insert, sort, uncross, enforce the spread).
use crate::laws::{book_wf, lemma_apply_keeps_invariants};
use crate::model::{
    ahead, apply_quote, as_index, book_add, crossed_at, insert_pos, is_key, kept,
    last_ask_at_or_below, last_bid_at_or_above, last_empty, lemma_add_room, lemma_kept_sum_le,
    lemma_last_ask_at_or_below, lemma_last_bid_at_or_above, lemma_last_empty, lemma_price_index,
    lemma_retire_room, lemma_sum_prefix, price_index, retire_side, retired_level, retired_levels,
    room, side_add, side_of, sorted_book, sorted_levels, spread_kept, step, sum_notional,
    too_close, uncrossed, uncrossed_at, with_side, BookModel, LevelModel, MIN_SPREAD_PIPS, Side,
};
use crate::parser::{parse_quote, record_of, AppError, Quote};
use vstd::prelude::*;

verus! {

/// One price level: the providers quoting at `price` with their notionals
/// (in arrival order) and the total notional.
#[derive(Debug)]
pub struct FxAggBookEntry {
    pub lp_vol: Vec<(String, u64)>,
    pub volume: u64,
    pub price: u64,
    pub side: Side,
}

/// Levels compare equal when their prices are equal.
impl PartialEq for FxAggBookEntry {
    fn eq(&self, other: &Self) -> (r: bool) {
        self.price == other.price
    }
}

impl vstd::std_specs::cmp::PartialEqSpecImpl for FxAggBookEntry {
    open spec fn obeys_eq_spec() -> bool {
        true
    }

    open spec fn eq_spec(&self, other: &Self) -> bool {
        self.price == other.price
    }
}

pub open spec fn contribs_view(s: Seq<(String, u64)>) -> Seq<(Seq<char>, u64)> {
    s.map_values(|c: (String, u64)| (c.0@, c.1))
}

impl View for FxAggBookEntry {
    type V = LevelModel;

    open spec fn view(&self) -> LevelModel {
        LevelModel {
            contribs: contribs_view(self.lp_vol@),
            volume: self.volume,
            price: self.price,
            side: self.side,
        }
    }
}

pub open spec fn levels_view(s: Seq<FxAggBookEntry>) -> Seq<LevelModel> {
    s.map_values(|e: FxAggBookEntry| e@)
}

/// The consolidated book for one currency pair.
#[derive(Debug)]
pub struct FxBook {
    pub currency_pair: String,
    pub buy_book: Vec<FxAggBookEntry>,
    pub sell_book: Vec<FxAggBookEntry>,
    pub timestamp: u64,
}

impl View for FxBook {
    type V = BookModel;

    open spec fn view(&self) -> BookModel {
        BookModel {
            pair: self.currency_pair@,
            bids: levels_view(self.buy_book@),
            asks: levels_view(self.sell_book@),
            ts: self.timestamp,
        }
    }
}

fn is_ahead(side: Side, a: u64, b: u64) -> (r: bool)
    ensures
        r == ahead(side, a, b),
{
    match side {
        Side::Buy => a > b,
        Side::Sell => a < b,
    }
}

/// Stable insertion sort of one side, best price first.
fn sort_side(v: &mut Vec<FxAggBookEntry>, side: Side)
    ensures
        levels_view(final(v)@) == sorted_levels(levels_view(old(v)@), side),
{
    let ghost orig = levels_view(v@);
    let n = v.len();
    let mut i: usize = 0;
    while i < n
        invariant
            v.len() == n,
            n == orig.len(),
            0 <= i <= n,
            levels_view(v@).take(i as int) == sorted_levels(orig.take(i as int), side),
            levels_view(v@).skip(i as int) == orig.skip(i as int),
        decreases n - i,
    {
        let ghost before = levels_view(v@);
        let x = v.remove(i);
        let ghost prefix = before.take(i as int);
        assert(levels_view(v@).take(i as int) =~= prefix);
        assert(x@ == orig[i as int]) by {
            assert(before.skip(i as int)[0] == before[i as int]);
        }
        assert(prefix.take(i as int) =~= prefix);
        let mut j: usize = i;
        while j > 0 && is_ahead(side, x.price, v[j - 1].price)
            invariant
                0 <= j <= i,
                i < n,
                v.len() == n - 1,
                levels_view(v@).take(i as int) == prefix,
                prefix.len() == i,
                insert_pos(prefix, x@, side) == insert_pos(prefix.take(j as int), x@, side),
            decreases j,
        {
            assert(prefix.take(j as int).drop_last() =~= prefix.take(j - 1));
            assert(prefix[j - 1] == levels_view(v@)[j - 1]);
            j -= 1;
        }
        proof {
            if j > 0 {
                assert(prefix[j - 1] == levels_view(v@)[j - 1]);
            }
            assert(prefix.take(j as int).len() == j);
            assert(prefix.take(0) =~= Seq::<LevelModel>::empty());
        }
        let ghost mid = levels_view(v@);
        v.insert(j, x);
        proof {
            assert(orig.take(i + 1).drop_last() =~= orig.take(i as int));
            assert(orig.take(i + 1).last() == orig[i as int]);
            assert(levels_view(v@) =~= mid.insert(j as int, x@));
            assert(levels_view(v@).take(i + 1) =~= prefix.insert(j as int, x@));
            assert(levels_view(v@).skip(i + 1) =~= orig.skip(i + 1)) by {
                assert forall|k: int| 0 <= k < n - i - 1 implies #[trigger] levels_view(v@).skip(i + 1)[k]
                    == orig.skip(i + 1)[k] by {
                    assert(mid[i + k] == before[i + k + 1]);
                    assert(before.skip(i as int)[k + 1] == orig.skip(i as int)[k + 1]);
                }
            }
        }
        i += 1;
    }
    assert(levels_view(v@) =~= levels_view(v@).take(n as int));
    assert(orig =~= orig.take(n as int));
}

/// Sorts the bid side: highest price first; levels of equal price keep
/// their order.
pub fn sort_buy_book(fx_buy_book: &mut Vec<FxAggBookEntry>)
    ensures
        levels_view(final(fx_buy_book)@) == sorted_levels(levels_view(old(fx_buy_book)@), Side::Buy),
{
    sort_side(fx_buy_book, Side::Buy);
}

/// Sorts the ask side: lowest price first; levels of equal price keep
/// their order.
pub fn sort_sell_book(fx_sell_book: &mut Vec<FxAggBookEntry>)
    ensures
        levels_view(final(fx_sell_book)@) == sorted_levels(
            levels_view(old(fx_sell_book)@),
            Side::Sell,
        ),
{
    sort_side(fx_sell_book, Side::Sell);
}

/// Takes `lp`'s contribution at notional `n` out of one level and recomputes
/// the level's volume.
fn retire_in_level(entry: &mut FxAggBookEntry, lp: &String, n: u64)
    requires
        sum_notional(old(entry)@.contribs) <= u64::MAX,
    ensures
        final(entry)@ == retired_level(old(entry)@, lp@, n),
{
    let ghost c = entry@.contribs;
    let ghost mut j: int = 0;
    let mut k: usize = 0;
    assert(c.take(0) =~= Seq::<(Seq<char>, u64)>::empty());
    assert(c.skip(0) =~= c);
    while k < entry.lp_vol.len()
        invariant
            0 <= j <= c.len(),
            k == kept(c.take(j), lp@, n).len(),
            contribs_view(entry.lp_vol@) == kept(c.take(j), lp@, n) + c.skip(j),
            entry.price == old(entry).price,
            entry.side == old(entry).side,
            c == old(entry)@.contribs,
        decreases c.len() - j,
    {
        let ghost cur = contribs_view(entry.lp_vol@);
        assert(cur[k as int] == c[j]) by {
            assert(c.skip(j)[0] == c[j]);
        }
        assert(c.take(j + 1).drop_last() =~= c.take(j));
        assert(c.take(j + 1).last() == c[j]);
        if entry.lp_vol[k].1 == n && entry.lp_vol[k].0 == *lp {
            entry.lp_vol.remove(k);
            proof {
                assert(is_key(c[j], lp@, n));
                assert(contribs_view(entry.lp_vol@) =~= cur.remove(k as int));
                assert(contribs_view(entry.lp_vol@) =~= kept(c.take(j + 1), lp@, n) + c.skip(j + 1));
                j = j + 1;
            }
        } else {
            proof {
                assert(!is_key(c[j], lp@, n));
                assert(contribs_view(entry.lp_vol@) =~= kept(c.take(j + 1), lp@, n) + c.skip(j + 1));
                j = j + 1;
            }
            k += 1;
        }
    }
    proof {
        assert(c.take(j) =~= c);
        assert(contribs_view(entry.lp_vol@) =~= kept(c, lp@, n));
        lemma_kept_sum_le(c, lp@, n);
    }
    let ghost kc = kept(c, lp@, n);
    let mut total: u64 = 0;
    let mut k: usize = 0;
    assert(kc.take(0) =~= Seq::<(Seq<char>, u64)>::empty());
    while k < entry.lp_vol.len()
        invariant
            contribs_view(entry.lp_vol@) == kc,
            0 <= k <= kc.len(),
            total == sum_notional(kc.take(k as int)),
            sum_notional(kc) <= u64::MAX,
        decreases kc.len() - k,
    {
        proof {
            lemma_sum_prefix(kc, k as int);
        }
        total = total + entry.lp_vol[k].1;
        k += 1;
    }
    assert(kc.take(k as int) =~= kc);
    entry.volume = total;
}

/// Removes `liquidity_provider`'s contribution at notional `volume` from every
/// level of the side and recomputes each level's volume. Levels left without
/// contributions stay in place; the index of the last of them is returned.
pub fn check_expired_quotes(
    fx_book_side: &mut Vec<FxAggBookEntry>,
    liquidity_provider: &str,
    volume: u64,
) -> (r: Option<usize>)
    requires
        room(levels_view(old(fx_book_side)@), 0),
    ensures
        levels_view(final(fx_book_side)@) == retired_levels(
            levels_view(old(fx_book_side)@),
            liquidity_provider@,
            volume,
        ),
        r == match last_empty(levels_view(final(fx_book_side)@)) {
            Some(i) => Some(i as usize),
            None => None::<usize>,
        },
{
    let ghost orig = levels_view(fx_book_side@);
    let lp = liquidity_provider.to_owned();
    let n = fx_book_side.len();
    let mut index_to_remove: Option<usize> = None;
    let mut i: usize = 0;
    assert(levels_view(fx_book_side@).take(0) =~= Seq::<LevelModel>::empty());
    while i < n
        invariant
            fx_book_side.len() == n,
            n == orig.len(),
            0 <= i <= n,
            lp@ == liquidity_provider@,
            room(orig, 0),
            forall|k: int|
                0 <= k < i ==> #[trigger] levels_view(fx_book_side@)[k] == retired_level(
                    orig[k],
                    lp@,
                    volume,
                ),
            forall|k: int| i <= k < n ==> #[trigger] levels_view(fx_book_side@)[k] == orig[k],
            index_to_remove == match last_empty(levels_view(fx_book_side@).take(i as int)) {
                Some(x) => Some(x as usize),
                None => None::<usize>,
            },
        decreases n - i,
    {
        let ghost before = levels_view(fx_book_side@);
        assert(before[i as int] == orig[i as int]);
        let mut entry = fx_book_side.remove(i);
        assert(entry@ == orig[i as int]);
        retire_in_level(&mut entry, &lp, volume);
        let emptied = entry.lp_vol.len() == 0;
        fx_book_side.insert(i, entry);
        proof {
            let now = levels_view(fx_book_side@);
            assert forall|k: int| 0 <= k < n && k != i implies #[trigger] now[k] == before[k] by {
                if k < i {
                } else {
                }
            }
            assert(now[i as int] == retired_level(orig[i as int], lp@, volume));
            assert(now.take(i + 1).drop_last() =~= before.take(i as int));
            assert(now.take(i + 1).last() == now[i as int]);
        }
        if emptied {
            index_to_remove = Some(i);
        }
        i += 1;
    }
    assert(levels_view(fx_book_side@) =~= retired_levels(orig, liquidity_provider@, volume));
    assert(levels_view(fx_book_side@).take(n as int) =~= levels_view(fx_book_side@));
    index_to_remove
}

/// Adds `lp`'s contribution to the level at `price`, or appends a new level.
fn add_to_side(v: &mut Vec<FxAggBookEntry>, lp: &str, n: u64, price: u64, side: Side)
    requires
        forall|i: int|
            0 <= i < old(v).len() ==> #[trigger] levels_view(old(v)@)[i].volume + n <= u64::MAX,
    ensures
        levels_view(final(v)@) == side_add(levels_view(old(v)@), lp@, n, price, side),
{
    let ghost s = levels_view(v@);
    proof {
        lemma_price_index(s, price);
    }
    let mut i: usize = 0;
    while i < v.len() && v[i].price != price
        invariant
            0 <= i <= v.len(),
            s == levels_view(v@),
            forall|j: int| 0 <= j < i ==> #[trigger] s[j].price != price,
        decreases v.len() - i,
    {
        i += 1;
    }
    assert(i == price_index(s, price)) by {
        let k = price_index(s, price);
        if i < k {
            assert(s[i as int].price != price);
        } else if k < i {
            assert(s[k].price != price);
        }
    }
    if i < v.len() {
        assert(levels_view(v@)[i as int].volume + n <= u64::MAX);
        let mut e = v.remove(i);
        let ghost c = e.lp_vol@;
        e.lp_vol.push((lp.to_owned(), n));
        assert(contribs_view(e.lp_vol@) =~= contribs_view(c).push((lp@, n)));
        e.volume = e.volume + n;
        let ghost mid = levels_view(v@);
        v.insert(i, e);
        assert(levels_view(v@) =~= mid.insert(i as int, e@));
        assert(levels_view(v@) =~= side_add(s, lp@, n, price, side));
    } else {
        let owner = lp.to_owned();
        let entry = FxAggBookEntry { lp_vol: vec![(owner, n)], volume: n, price, side };
        assert(contribs_view(entry.lp_vol@) =~= seq![(lp@, n)]);
        v.push(entry);
        assert(levels_view(v@) =~= side_add(s, lp@, n, price, side));
    }
}

/// Adds `liquidity_provider`'s contribution of notional `volume` at `price` to
/// one side: appended to the level at that price, or as a new level at the
/// end. While the book is empty, the first entry must be a bid: an ask is
/// refused and the book is left as it is.
pub fn add_agg_book_entry(
    fx_book: &mut FxBook,
    liquidity_provider: &str,
    volume: u64,
    price: u64,
    side: Side,
)
    requires
        forall|i: int|
            0 <= i < side_of(old(fx_book)@, side).len() ==> #[trigger] side_of(
                old(fx_book)@,
                side,
            )[i].volume + volume <= u64::MAX,
    ensures
        final(fx_book)@ == book_add(old(fx_book)@, liquidity_provider@, volume, price, side),
{
    if fx_book.buy_book.len() == 0 && fx_book.sell_book.len() == 0 && side == Side::Sell {
        return ;
    }
    assert forall|i: int| 0 <= i < side_of(fx_book@, side).len() implies #[trigger] side_of(
        fx_book@,
        side,
    )[i].volume + volume <= u64::MAX by {}
    match side {
        Side::Buy => add_to_side(&mut fx_book.buy_book, liquidity_provider, volume, price, side),
        Side::Sell => add_to_side(&mut fx_book.sell_book, liquidity_provider, volume, price, side),
    }
}

/// The deepest bid at or above `sell_price`: where the bids must be cut when
/// the book is crossed at that ask price.
pub fn find_buy_index_when_crossed(fx_buy_book: &Vec<FxAggBookEntry>, sell_price: u64) -> (r:
    Option<usize>)
    ensures
        r == as_index(last_bid_at_or_above(levels_view(fx_buy_book@), sell_price)),
{
    let ghost s = levels_view(fx_buy_book@);
    let mut i: usize = fx_buy_book.len();
    assert(s.take(i as int) =~= s);
    while i > 0
        invariant
            0 <= i <= fx_buy_book.len(),
            s == levels_view(fx_buy_book@),
            last_bid_at_or_above(s, sell_price) == last_bid_at_or_above(
                s.take(i as int),
                sell_price,
            ),
        decreases i,
    {
        assert(s.take(i as int).drop_last() =~= s.take(i - 1));
        assert(s.take(i as int).last() == s[i - 1]);
        if fx_buy_book[i - 1].price >= sell_price {
            return Some(i - 1);
        }
        i -= 1;
    }
    None
}

/// Whether the book is crossed: the deepest ask at or below the best bid, as
/// its index and price. A book without bids is not crossed.
pub fn check_books_crossed(fx_book: &FxBook) -> (r: Option<(usize, u64)>)
    ensures
        r == match crossed_at(fx_book@) {
            Some((k, p)) => Some((k as usize, p)),
            None => None::<(usize, u64)>,
        },
{
    if fx_book.buy_book.len() == 0 {
        return None;
    }
    let top_of_buy_book_price = fx_book.buy_book[0].price;
    let ghost s = levels_view(fx_book.sell_book@);
    assert(levels_view(fx_book.buy_book@)[0].price == top_of_buy_book_price);
    let mut i: usize = fx_book.sell_book.len();
    assert(s.take(i as int) =~= s);
    while i > 0
        invariant
            0 <= i <= fx_book.sell_book.len(),
            s == levels_view(fx_book.sell_book@),
            fx_book.buy_book.len() > 0,
            levels_view(fx_book.buy_book@)[0].price == top_of_buy_book_price,
            last_ask_at_or_below(s, top_of_buy_book_price) == last_ask_at_or_below(
                s.take(i as int),
                top_of_buy_book_price,
            ),
        decreases i,
    {
        assert(s.take(i as int).drop_last() =~= s.take(i - 1));
        assert(s.take(i as int).last() == s[i - 1]);
        assert(s[i - 1].price == fx_book.sell_book[i - 1].price);
        if fx_book.sell_book[i - 1].price <= top_of_buy_book_price {
            assert(s.take(i as int).len() == i);
            assert(last_ask_at_or_below(s.take(i as int), top_of_buy_book_price) == Some(
                i - 1,
            ));
            assert(fx_book@.bids.len() > 0);
            assert(fx_book@.asks == s);
            assert(crossed_at(fx_book@) == Some((i - 1, s[i - 1].price)));
            return Some((i - 1, fx_book.sell_book[i - 1].price));
        }
        i -= 1;
    }
    None
}

/// Removes the levels `0..=index` from the top of a side.
pub fn remove_range_entries_from_top(fx_book_side: &mut Vec<FxAggBookEntry>, index: usize)
    requires
        index < old(fx_book_side).len(),
    ensures
        final(fx_book_side)@ == old(fx_book_side)@.skip(index + 1),
{
    let ghost orig = fx_book_side@;
    let mut i: usize = 0;
    assert(orig.skip(0) =~= orig);
    assert(orig.len() <= usize::MAX);
    while i <= index
        invariant
            0 <= i <= index + 1,
            index < orig.len(),
            orig.len() <= usize::MAX,
            fx_book_side@ == orig.skip(i as int),
        decreases index + 1 - i,
    {
        fx_book_side.remove(0);
        assert(fx_book_side@ =~= orig.skip(i + 1));
        i += 1;
    }
}

/// Removes the level at `index` from one side.
fn remove_single_entry(fx_book: &mut FxBook, side: Side, index_to_remove: usize)
    requires
        index_to_remove < side_of(old(fx_book)@, side).len(),
    ensures
        final(fx_book)@ == with_side(
            old(fx_book)@,
            side,
            side_of(old(fx_book)@, side).remove(index_to_remove as int),
        ),
{
    let ghost b = fx_book@;
    match side {
        Side::Buy => {
            fx_book.buy_book.remove(index_to_remove);
            assert(levels_view(fx_book.buy_book@) =~= b.bids.remove(index_to_remove as int));
        },
        Side::Sell => {
            fx_book.sell_book.remove(index_to_remove);
            assert(levels_view(fx_book.sell_book@) =~= b.asks.remove(index_to_remove as int));
        },
    }
}

/// Repairs a book crossed at ask index `index.0`, whose price is `index.1`:
/// when there are more bids than asks, every bid at or above that price is
/// cut; otherwise the asks `0..=index.0` are cut.
fn correct_crossed_books(fx_book: &mut FxBook, index: (usize, u64))
    requires
        index.0 < old(fx_book).sell_book.len(),
    ensures
        final(fx_book)@ == uncrossed_at(old(fx_book)@, index.0 as int, index.1),
{
    let ghost b = fx_book@;
    proof {
        lemma_last_bid_at_or_above(b.bids, index.1);
    }
    if fx_book.buy_book.len() > fx_book.sell_book.len() {
        if let Some(position) = find_buy_index_when_crossed(&fx_book.buy_book, index.1) {
            remove_range_entries_from_top(&mut fx_book.buy_book, position);
            assert(levels_view(fx_book.buy_book@) =~= b.bids.skip(position + 1));
        }
    } else {
        remove_range_entries_from_top(&mut fx_book.sell_book, index.0);
        assert(levels_view(fx_book.sell_book@) =~= b.asks.skip(index.0 + 1));
    }
}

fn is_too_close(bid: u64, ask: u64) -> (r: bool)
    ensures
        r == too_close(bid, ask),
{
    ask <= bid || ask - bid <= MIN_SPREAD_PIPS
}

/// Deletes best levels while both sides are non-empty and the best ask is not
/// more than the minimum spread above the best bid: from the bids when they
/// are at least as many as the asks, else from the asks.
pub fn maintain_min_spread(fx_book: &mut FxBook)
    ensures
        final(fx_book)@ == spread_kept(old(fx_book)@),
{
    while fx_book.buy_book.len() > 0 && fx_book.sell_book.len() > 0 && is_too_close(
        fx_book.buy_book[0].price,
        fx_book.sell_book[0].price,
    )
        invariant
            spread_kept(fx_book@) == spread_kept(old(fx_book)@),
        decreases fx_book.buy_book.len() + fx_book.sell_book.len(),
    {
        let ghost b = fx_book@;
        assert(b.bids[0].price == fx_book.buy_book[0].price);
        assert(b.asks[0].price == fx_book.sell_book[0].price);
        if fx_book.buy_book.len() >= fx_book.sell_book.len() {
            fx_book.buy_book.remove(0);
            assert(levels_view(fx_book.buy_book@) =~= b.bids.drop_first());
        } else {
            fx_book.sell_book.remove(0);
            assert(levels_view(fx_book.sell_book@) =~= b.asks.drop_first());
        }
    }
}

/// One side of the book.
pub fn get_book_side(fx_book: &FxBook, side: Side) -> (r: &Vec<FxAggBookEntry>)
    ensures
        *r == match side {
            Side::Buy => fx_book.buy_book,
            Side::Sell => fx_book.sell_book,
        },
{
    match side {
        Side::Buy => &fx_book.buy_book,
        Side::Sell => &fx_book.sell_book,
    }
}

/// Retires `lp`'s previous contribution at notional `n` on one side, then adds
/// the new one at `price`.
fn retire_then_add(
    fx_book: &mut FxBook,
    lp: &str,
    n: u64,
    price: u64,
    side: Side,
    slack: Ghost<int>,
)
    requires
        room(side_of(old(fx_book)@, side), slack@),
        n <= slack@ <= u64::MAX,
    ensures
        final(fx_book)@ == step(old(fx_book)@, lp@, n, price, side),
        room(side_of(final(fx_book)@, side), slack@ - n),
        side == Side::Buy ==> final(fx_book)@.asks == old(fx_book)@.asks,
        side == Side::Sell ==> final(fx_book)@.bids == old(fx_book)@.bids,
{
    let ghost b = fx_book@;
    let ghost orig = side_of(b, side);
    let found = match side {
        Side::Buy => check_expired_quotes(&mut fx_book.buy_book, lp, n),
        Side::Sell => check_expired_quotes(&mut fx_book.sell_book, lp, n),
    };
    let ghost t = retired_levels(orig, lp@, n);
    proof {
        lemma_last_empty(t);
    }
    assert(side_of(fx_book@, side) == t);
    assert(fx_book@ == with_side(b, side, t));
    if let Some(i) = found {
        assert(last_empty(t) == Some(i as int)) by {
            match last_empty(t) {
                Some(k) => {
                    assert(k < t.len());
                    assert(t.len() <= usize::MAX) by {
                        match side {
                            Side::Buy => assert(t.len() == fx_book.buy_book.len()),
                            Side::Sell => assert(t.len() == fx_book.sell_book.len()),
                        }
                    }
                },
                None => {},
            }
        }
        remove_single_entry(fx_book, side, i);
        assert(side_of(fx_book@, side) == t.remove(i as int));
    } else {
        assert(last_empty(t) is None);
    }
    proof {
        assert(side_of(fx_book@, side) == retire_side(orig, lp@, n));
        assert(fx_book@ == with_side(b, side, retire_side(orig, lp@, n)));
        lemma_retire_room(orig, lp@, n, slack@);
        lemma_add_room(retire_side(orig, lp@, n), lp@, n, price, side, slack@);
    }
    add_agg_book_entry(fx_book, lp, n, price, side);
}

/// A copy of a level, contributions included.
fn copy_level(e: &FxAggBookEntry) -> (r: FxAggBookEntry)
    ensures
        r@ == e@,
{
    let mut lp_vol: Vec<(String, u64)> = Vec::new();
    let mut k: usize = 0;
    while k < e.lp_vol.len()
        invariant
            0 <= k <= e.lp_vol.len(),
            contribs_view(lp_vol@) == contribs_view(e.lp_vol@).take(k as int),
        decreases e.lp_vol.len() - k,
    {
        let ghost before = lp_vol@;
        let lp = e.lp_vol[k].0.clone();
        assert(lp@ == e.lp_vol@[k as int].0@);
        lp_vol.push((lp, e.lp_vol[k].1));
        assert(contribs_view(lp_vol@) =~= contribs_view(before).push(
            contribs_view(e.lp_vol@)[k as int],
        ));
        assert(contribs_view(lp_vol@) =~= contribs_view(e.lp_vol@).take(k + 1));
        k += 1;
    }
    assert(contribs_view(e.lp_vol@).take(k as int) =~= contribs_view(e.lp_vol@));
    FxAggBookEntry { lp_vol, volume: e.volume, price: e.price, side: e.side }
}

/// A copy of a side.
fn copy_side(v: &Vec<FxAggBookEntry>) -> (r: Vec<FxAggBookEntry>)
    ensures
        levels_view(r@) == levels_view(v@),
{
    let mut r: Vec<FxAggBookEntry> = Vec::new();
    let mut i: usize = 0;
    while i < v.len()
        invariant
            0 <= i <= v.len(),
            levels_view(r@) == levels_view(v@).take(i as int),
        decreases v.len() - i,
    {
        let ghost before = r@;
        let e = copy_level(&v[i]);
        r.push(e);
        assert(levels_view(r@) =~= levels_view(before).push(levels_view(v@)[i as int]));
        assert(levels_view(r@) =~= levels_view(v@).take(i + 1));
        i += 1;
    }
    assert(levels_view(v@).take(i as int) =~= levels_view(v@));
    r
}

/// Whether the contributions of `e` sum to at most `u64::MAX - slack`.
fn level_has_room(e: &FxAggBookEntry, slack: u64) -> (r: bool)
    ensures
        r == (sum_notional(e@.contribs) + slack <= u64::MAX),
{
    let ghost c = e@.contribs;
    let limit = u64::MAX - slack;
    let mut total: u64 = 0;
    let mut k: usize = 0;
    assert(c.take(0) =~= Seq::<(Seq<char>, u64)>::empty());
    while k < e.lp_vol.len()
        invariant
            0 <= k <= e.lp_vol.len(),
            c == e@.contribs,
            limit == u64::MAX - slack,
            total == sum_notional(c.take(k as int)),
            total <= limit,
        decreases e.lp_vol.len() - k,
    {
        proof {
            lemma_sum_prefix(c, k as int);
        }
        let n = e.lp_vol[k].1;
        if n > limit - total {
            return false;
        }
        total = total + n;
        k += 1;
    }
    assert(c.take(k as int) =~= c);
    true
}

/// Whether every level of a side has contributions summing to at most
/// `u64::MAX - slack`.
fn side_has_room(v: &Vec<FxAggBookEntry>, slack: u64) -> (r: bool)
    ensures
        r == room(levels_view(v@), slack as int),
{
    let mut i: usize = 0;
    while i < v.len()
        invariant
            0 <= i <= v.len(),
            forall|j: int|
                0 <= j < i ==> sum_notional(#[trigger] levels_view(v@)[j].contribs) + slack
                    <= u64::MAX,
        decreases v.len() - i,
    {
        if !level_has_room(&v[i], slack) {
            assert(levels_view(v@)[i as int] == v@[i as int]@);
            return false;
        }
        i += 1;
    }
    true
}

impl FxBook {
    /// Whether the book can take one more quote: every level's contributions
    /// leave room for a quote's notionals (1 + 3 + 5) below `u64::MAX`.
    pub fn has_room_for_quote(&self) -> (r: bool)
        ensures
            r == (room(self@.bids, 9) && room(self@.asks, 9)),
    {
        side_has_room(&self.buy_book, 9) && side_has_room(&self.sell_book, 9)
    }

    /// A point-in-time copy of the book for readers.
    pub fn snapshot(&self) -> (r: FxBook)
        ensures
            r@ == self@,
    {
        FxBook {
            currency_pair: self.currency_pair.clone(),
            buy_book: copy_side(&self.buy_book),
            sell_book: copy_side(&self.sell_book),
            timestamp: self.timestamp,
        }
    }

    /// An empty book for `currency_pair`, stamped with `timestamp`.
    pub fn new(currency_pair: String, timestamp: u64) -> (r: FxBook)
        ensures
            r@.pair == currency_pair@,
            r@.bids.len() == 0,
            r@.asks.len() == 0,
            r@.ts == timestamp,
            book_wf(r@),
    {
        FxBook { currency_pair, buy_book: Vec::new(), sell_book: Vec::new(), timestamp }
    }

    /// Applies one quote: takes its timestamp, retires and re-inserts each of
    /// the six sub-quotes, sorts both sides, repairs a crossed book and
    /// enforces the minimum spread.
    pub fn apply(&mut self, quote: &Quote)
        requires
            room(old(self)@.bids, 9),
            room(old(self)@.asks, 9),
        ensures
            final(self)@ == apply_quote(old(self)@, quote@),
            book_wf(old(self)@) ==> book_wf(final(self)@),
    {
        proof {
            if book_wf(self@) {
                lemma_apply_keeps_invariants(self@, quote@);
            }
        }
        self.timestamp = quote.timestamp;
        let lp = quote.lp.as_str();
        retire_then_add(self, lp, 1, quote.one_mill_buy, Side::Buy, Ghost(9));
        retire_then_add(self, lp, 1, quote.one_mill_sell, Side::Sell, Ghost(9));
        retire_then_add(self, lp, 3, quote.three_mill_buy, Side::Buy, Ghost(8));
        retire_then_add(self, lp, 3, quote.three_mill_sell, Side::Sell, Ghost(8));
        retire_then_add(self, lp, 5, quote.five_mill_buy, Side::Buy, Ghost(5));
        retire_then_add(self, lp, 5, quote.five_mill_sell, Side::Sell, Ghost(5));
        let ghost b6 = self@;
        sort_buy_book(&mut self.buy_book);
        sort_sell_book(&mut self.sell_book);
        assert(self@ == sorted_book(b6));
        let ghost b7 = self@;
        if let Some(index) = check_books_crossed(self) {
            proof {
                lemma_last_ask_at_or_below(b7.asks, b7.bids[0].price);
                assert(b7.asks.len() == self.sell_book.len());
                assert(crossed_at(b7) == Some((index.0 as int, index.1)));
            }
            correct_crossed_books(self, index);
        } else {
            assert(crossed_at(b7) is None);
        }
        assert(self@ == uncrossed(b7));
        maintain_min_spread(self);
    }

    /// Parses a quote record and applies it. A record that does not parse is
    /// refused with its error and leaves the book as it was.
    pub fn update(&mut self, market_data: String) -> (r: Result<(), AppError>)
        requires
            room(old(self)@.bids, 9),
            room(old(self)@.asks, 9),
        ensures
            match record_of(market_data@) {
                Ok(q) => r == Ok::<(), AppError>(()) && final(self)@ == apply_quote(old(self)@, q),
                Err(e) => r == Err::<(), AppError>(e) && final(self)@ == old(self)@,
            },
            book_wf(old(self)@) ==> book_wf(final(self)@),
    {
        match parse_quote(market_data.as_str()) {
            Ok(quote) => {
                self.apply(&quote);
                Ok(())
            },
            Err(e) => Err(e),
        }
    }
}

} // verus!
