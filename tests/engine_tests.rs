use fx_sim_agg::aggregator::{
    add_agg_book_entry, check_books_crossed, check_expired_quotes, maintain_min_spread,
    sort_buy_book, FxAggBookEntry, FxBook,
};
use fx_sim_agg::model::Side;
use fx_sim_agg::parser::{get_params, get_str_field, parse_quote, AppError};

fn level(contribs: &[(&str, u64)], price: u64, side: Side) -> FxAggBookEntry {
    FxAggBookEntry {
        lp_vol: contribs.iter().map(|(l, n)| (l.to_string(), *n)).collect(),
        volume: contribs.iter().map(|(_, n)| *n).sum(),
        price,
        side,
    }
}

fn prices(side: &[FxAggBookEntry]) -> Vec<u64> {
    side.iter().map(|e| e.price).collect()
}

fn record(lp: &str, p: [&str; 6], ts: u64) -> String {
    format!(
        "{} | USD/EUR | {} | {} | {} | {} | {} | {} | {}",
        lp, p[0], p[1], p[2], p[3], p[4], p[5], ts
    )
}

fn check_invariants(book: &FxBook) {
    for (side, tag) in [(&book.buy_book, Side::Buy), (&book.sell_book, Side::Sell)] {
        for e in side.iter() {
            assert!(!e.lp_vol.is_empty());
            assert_eq!(e.volume, e.lp_vol.iter().map(|c| c.1).sum::<u64>());
            assert_eq!(e.side, tag);
        }
        let mut seen: Vec<(String, u64)> = Vec::new();
        for e in side.iter() {
            for c in e.lp_vol.iter() {
                assert!(!seen.contains(c));
                seen.push(c.clone());
            }
        }
    }
    for w in book.buy_book.windows(2) {
        assert!(w[0].price > w[1].price);
    }
    for w in book.sell_book.windows(2) {
        assert!(w[0].price < w[1].price);
    }
    if !book.buy_book.is_empty() && !book.sell_book.is_empty() {
        assert!(book.sell_book[0].price > book.buy_book[0].price + 6);
    }
}

#[test]
fn parse_quote_reads_every_field() {
    let q = parse_quote(" MS | USD/EUR | 1.5556 | 1.5563 | 1.5557 | 1.5562 | 1.5558 | 1.5561 | 1753440851702449924 ")
        .unwrap();
    assert_eq!(q.lp, "MS");
    assert_eq!(q.pair, "USD/EUR");
    assert_eq!(q.one_mill_buy, 15556);
    assert_eq!(q.one_mill_sell, 15563);
    assert_eq!(q.three_mill_buy, 15557);
    assert_eq!(q.three_mill_sell, 15562);
    assert_eq!(q.five_mill_buy, 15558);
    assert_eq!(q.five_mill_sell, 15561);
    assert_eq!(q.timestamp, 1753440851702449924);
}

#[test]
fn parse_quote_short_prices() {
    let q = parse_quote("UBS|USD/EUR|1.5|+2|.5|3.|10|0.0001|+7").unwrap();
    assert_eq!(q.one_mill_buy, 15000);
    assert_eq!(q.one_mill_sell, 20000);
    assert_eq!(q.three_mill_buy, 5000);
    assert_eq!(q.three_mill_sell, 30000);
    assert_eq!(q.five_mill_buy, 100000);
    assert_eq!(q.five_mill_sell, 1);
    assert_eq!(q.timestamp, 7);
}

#[test]
fn parse_quote_too_few_fields() {
    let r = parse_quote("MS | USD/EUR | 1.5556 | 1.5563 | 1.5557 | 1.5562 | 1.5558 | 1.5561");
    assert_eq!(r.unwrap_err(), AppError::NumParams);
}

#[test]
fn parse_quote_empty_lp() {
    let r = parse_quote("   | USD/EUR | 1.5556 | 1.5563 | 1.5557 | 1.5562 | 1.5558 | 1.5561 | 1");
    assert_eq!(r.unwrap_err(), AppError::IsEmpty);
}

#[test]
fn parse_quote_empty_pair() {
    let r = parse_quote("MS |  | 1.5556 | 1.5563 | 1.5557 | 1.5562 | 1.5558 | 1.5561 | 1");
    assert_eq!(r.unwrap_err(), AppError::IsEmpty);
}

#[test]
fn parse_quote_bad_price() {
    let r = parse_quote("MS | USD/EUR | 1.5556 | abc | 1.5557 | 1.5562 | 1.5558 | 1.5561 | 1");
    assert_eq!(r.unwrap_err(), AppError::ParseFloat);
    let r = parse_quote("MS | USD/EUR | 1.55561 | 1.5563 | 1.5557 | 1.5562 | 1.5558 | 1.5561 | 1");
    assert_eq!(r.unwrap_err(), AppError::ParseFloat);
    let r = parse_quote("MS | USD/EUR | . | 1.5563 | 1.5557 | 1.5562 | 1.5558 | 1.5561 | 1");
    assert_eq!(r.unwrap_err(), AppError::ParseFloat);
}

#[test]
fn parse_quote_bad_timestamp() {
    let r = parse_quote("MS | USD/EUR | 1.5556 | 1.5563 | 1.5557 | 1.5562 | 1.5558 | 1.5561 | 12x");
    assert_eq!(r.unwrap_err(), AppError::ParseInt);
    let r = parse_quote("MS | USD/EUR | 1.5556 | 1.5563 | 1.5557 | 1.5562 | 1.5558 | 1.5561 | 18446744073709551616");
    assert_eq!(r.unwrap_err(), AppError::ParseInt);
}

#[test]
fn get_params_counts_fields() {
    let v = get_params("a|b| c", 3).unwrap();
    assert_eq!(v, vec!["a".to_string(), "b".to_string(), " c".to_string()]);
    assert_eq!(get_params("a|b", 3).unwrap_err(), AppError::NumParams);
    assert_eq!(get_params("", 1).unwrap(), vec![String::new()]);
}

#[test]
fn get_str_field_trims() {
    assert_eq!(get_str_field(Some("  MS \t")).unwrap(), "MS");
    assert_eq!(get_str_field(Some(" \u{a0} ")).unwrap_err(), AppError::IsEmpty);
    assert_eq!(get_str_field(None).unwrap_err(), AppError::IsEmpty);
}

#[test]
fn first_ask_on_empty_book_is_ignored() {
    let mut book = FxBook::new(String::from("USD/EUR"), 0);
    add_agg_book_entry(&mut book, "MS", 1, 15563, Side::Sell);
    assert!(book.buy_book.is_empty());
    assert!(book.sell_book.is_empty());
}

#[test]
fn same_price_contributions_share_a_level() {
    let mut book = FxBook::new(String::from("USD/EUR"), 0);
    add_agg_book_entry(&mut book, "MS", 1, 15556, Side::Buy);
    add_agg_book_entry(&mut book, "UBS", 3, 15556, Side::Buy);
    assert_eq!(book.buy_book.len(), 1);
    assert_eq!(book.buy_book[0].volume, 4);
    assert_eq!(
        book.buy_book[0].lp_vol,
        vec![(String::from("MS"), 1), (String::from("UBS"), 3)]
    );
}

#[test]
fn retire_without_match_leaves_level() {
    let mut side = vec![level(&[("MS", 1), ("UBS", 5), ("CITI", 3), ("BARX", 3)], 15556, Side::Buy)];
    assert_eq!(check_expired_quotes(&mut side, "JPMC", 1), None);
    assert_eq!(side[0].volume, 12);
    assert_eq!(side[0].lp_vol.len(), 4);
}

#[test]
fn retire_reports_emptied_level() {
    let mut side = vec![
        level(&[("MS", 1), ("UBS", 5)], 15556, Side::Buy),
        level(&[("UBS", 1)], 15555, Side::Buy),
    ];
    assert_eq!(check_expired_quotes(&mut side, "UBS", 1), Some(1));
    assert_eq!(side.len(), 2);
    assert!(side[1].lp_vol.is_empty());
    assert_eq!(side[1].volume, 0);
    assert_eq!(side[0].volume, 6);
}

#[test]
fn sort_twice_is_sort_once() {
    let mut side = vec![
        level(&[("MS", 1)], 15555, Side::Buy),
        level(&[("MS", 3)], 15556, Side::Buy),
        level(&[("MS", 5)], 15553, Side::Buy),
    ];
    sort_buy_book(&mut side);
    let once = prices(&side);
    sort_buy_book(&mut side);
    assert_eq!(prices(&side), once);
    assert_eq!(once, vec![15556, 15555, 15553]);
}

#[test]
fn crossed_detection_needs_bids() {
    let mut book = FxBook::new(String::from("USD/EUR"), 0);
    book.sell_book.push(level(&[("MS", 1)], 15558, Side::Sell));
    assert_eq!(check_books_crossed(&book), None);
}

#[test]
fn spread_tie_removes_bid() {
    let mut book = FxBook::new(String::from("USD/EUR"), 0);
    book.buy_book.push(level(&[("MS", 1)], 15559, Side::Buy));
    book.sell_book.push(level(&[("UBS", 1)], 15564, Side::Sell));
    maintain_min_spread(&mut book);
    assert!(book.buy_book.is_empty());
    assert_eq!(prices(&book.sell_book), vec![15564]);
}

#[test]
fn spread_of_exactly_six_pips_is_too_narrow() {
    let mut book = FxBook::new(String::from("USD/EUR"), 0);
    book.buy_book.push(level(&[("MS", 1)], 15558, Side::Buy));
    book.buy_book.push(level(&[("MS", 3)], 15550, Side::Buy));
    book.sell_book.push(level(&[("UBS", 1)], 15564, Side::Sell));
    maintain_min_spread(&mut book);
    assert_eq!(prices(&book.buy_book), vec![15550]);
}

#[test]
fn first_quote_fills_both_sides() {
    let mut book = FxBook::new(String::from("USD/EUR"), 0);
    book.update(record("MS", ["1.5550", "1.5570", "1.5549", "1.5571", "1.5548", "1.5572"], 10))
        .unwrap();
    assert_eq!(prices(&book.buy_book), vec![15550, 15549, 15548]);
    assert_eq!(prices(&book.sell_book), vec![15570, 15571, 15572]);
    assert_eq!(book.timestamp, 10);
    check_invariants(&book);
}

#[test]
fn requote_relocates_contributions() {
    let mut book = FxBook::new(String::from("USD/EUR"), 0);
    book.update(record("MS", ["1.5550", "1.5570", "1.5549", "1.5571", "1.5548", "1.5572"], 10))
        .unwrap();
    book.update(record("MS", ["1.5551", "1.5570", "1.5551", "1.5575", "1.5548", "1.5572"], 20))
        .unwrap();
    assert_eq!(prices(&book.buy_book), vec![15551, 15548]);
    assert_eq!(book.buy_book[0].volume, 4);
    assert_eq!(prices(&book.sell_book), vec![15570, 15572, 15575]);
    let bid_total: u64 = book.buy_book.iter().map(|e| e.volume).sum();
    let ask_total: u64 = book.sell_book.iter().map(|e| e.volume).sum();
    assert_eq!(bid_total, 9);
    assert_eq!(ask_total, 9);
    assert_eq!(book.timestamp, 20);
    check_invariants(&book);
}

#[test]
fn retire_deletes_emptied_level() {
    let mut book = FxBook::new(String::from("USD/EUR"), 0);
    book.update(record("MS", ["1.5550", "1.5570", "1.5549", "1.5571", "1.5548", "1.5572"], 1))
        .unwrap();
    book.update(record("MS", ["1.5540", "1.5570", "1.5549", "1.5571", "1.5548", "1.5572"], 2))
        .unwrap();
    assert_eq!(prices(&book.buy_book), vec![15549, 15548, 15540]);
    check_invariants(&book);
}

#[test]
fn uncross_with_equal_sides_cuts_asks() {
    let mut book = FxBook::new(String::from("USD/EUR"), 0);
    book.update(record("MS", ["1.5550", "1.5570", "1.5549", "1.5571", "1.5548", "1.5572"], 1))
        .unwrap();
    book.update(record("UBS", ["1.5575", "1.5580", "1.5574", "1.5581", "1.5573", "1.5582"], 2))
        .unwrap();
    assert_eq!(prices(&book.sell_book), vec![15580, 15581, 15582]);
    assert_eq!(prices(&book.buy_book), vec![15573, 15550, 15549, 15548]);
    check_invariants(&book);
}

#[test]
fn uncross_with_more_bids_cuts_bids() {
    let mut book = FxBook::new(String::from("USD/EUR"), 0);
    book.update(record("MS", ["1.5550", "1.5570", "1.5549", "1.5571", "1.5548", "1.5572"], 1))
        .unwrap();
    book.update(record("UBS", ["1.5560", "1.5570", "1.5559", "1.5571", "1.5558", "1.5572"], 2))
        .unwrap();
    book.update(record("JPMC", ["1.5575", "1.5590", "1.5574", "1.5590", "1.5573", "1.5590"], 3))
        .unwrap();
    assert_eq!(prices(&book.sell_book), vec![15570, 15571, 15572, 15590]);
    assert_eq!(prices(&book.buy_book), vec![15560, 15559, 15558, 15550, 15549, 15548]);
    check_invariants(&book);
}

#[test]
fn bad_record_leaves_book() {
    let mut book = FxBook::new(String::from("USD/EUR"), 5);
    book.update(record("MS", ["1.5550", "1.5570", "1.5549", "1.5571", "1.5548", "1.5572"], 1))
        .unwrap();
    let r = book.update(String::from("MS | USD/EUR | 1.6 | x | 1 | 1 | 1 | 1 | 9"));
    assert_eq!(r.unwrap_err(), AppError::ParseFloat);
    assert_eq!(book.timestamp, 1);
    assert_eq!(prices(&book.buy_book), vec![15550, 15549, 15548]);
}

#[test]
fn narrow_spread_cuts_longer_side() {
    let mut book = FxBook::new(String::from("USD/EUR"), 0);
    book.update(record("MS", ["1.5550", "1.5570", "1.5549", "1.5571", "1.5548", "1.5572"], 1))
        .unwrap();
    book.update(record("UBS", ["1.5560", "1.5570", "1.5559", "1.5571", "1.5558", "1.5572"], 2))
        .unwrap();
    book.update(record("JPMC", ["1.5569", "1.5590", "1.5568", "1.5590", "1.5567", "1.5590"], 3))
        .unwrap();
    assert_eq!(prices(&book.buy_book), vec![15560, 15559, 15558, 15550, 15549, 15548]);
    assert_eq!(prices(&book.sell_book), vec![15570, 15571, 15572, 15590]);
    check_invariants(&book);
}

#[test]
fn timestamps_follow_quotes() {
    let mut book = FxBook::new(String::from("USD/EUR"), 0);
    let mut last = 0;
    for (i, ts) in [3u64, 8, 8, 15].iter().enumerate() {
        let lp = if i % 2 == 0 { "MS" } else { "UBS" };
        book.update(record(lp, ["1.5550", "1.5570", "1.5549", "1.5571", "1.5548", "1.5572"], *ts))
            .unwrap();
        assert!(book.timestamp >= last);
        assert_eq!(book.timestamp, *ts);
        last = book.timestamp;
        check_invariants(&book);
    }
}

#[test]
fn snapshot_copies_the_book() {
    let mut book = FxBook::new(String::from("USD/EUR"), 0);
    book.update(record("MS", ["1.5550", "1.5570", "1.5549", "1.5571", "1.5548", "1.5572"], 4))
        .unwrap();
    let snap = book.snapshot();
    book.update(record("UBS", ["1.5551", "1.5580", "1.5549", "1.5581", "1.5547", "1.5582"], 9))
        .unwrap();
    assert_eq!(snap.currency_pair, "USD/EUR");
    assert_eq!(snap.timestamp, 4);
    assert_eq!(prices(&snap.buy_book), vec![15550, 15549, 15548]);
    assert_eq!(snap.buy_book[1].lp_vol, vec![(String::from("MS"), 3)]);
    assert_eq!(prices(&snap.sell_book), vec![15570, 15571, 15572]);
    assert_eq!(book.buy_book[2].lp_vol, vec![(String::from("MS"), 3), (String::from("UBS"), 3)]);
}

#[test]
fn room_for_quote_near_the_limit() {
    let mut book = FxBook::new(String::from("USD/EUR"), 0);
    assert!(book.has_room_for_quote());
    book.buy_book.push(level(&[("MS", u64::MAX - 9)], 15550, Side::Buy));
    assert!(book.has_room_for_quote());
    book.sell_book.push(level(&[("MS", u64::MAX - 10), ("UBS", 2)], 15570, Side::Sell));
    assert!(!book.has_room_for_quote());
}
