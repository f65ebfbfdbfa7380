use fx_sim_agg::aggregator::{self, FxAggBookEntry, FxBook};
use fx_sim_agg::model::Side;
#[test]
fn test_sort_by_price_reverse() {
    let mut fx_buy_book: Vec<FxAggBookEntry> = vec![
        FxAggBookEntry {
            lp_vol: vec![
                (String::from("MS "), 1),
                (String::from("UBS "), 5),
                (String::from("CITI "), 3),
                (String::from("BARX "), 3),
            ],
            volume: 12,
            price: 15555,
            side: Side::Buy,
        },
        FxAggBookEntry {
            lp_vol: vec![
                (String::from("MS "), 3),
                (String::from("JPMC "), 1),
                (String::from("CITI "), 5),
            ],
            volume: 9,
            price: 15556,
            side: Side::Buy,
        },
        FxAggBookEntry {
            lp_vol: vec![(String::from("UBS "), 1)],
            volume: 1,
            price: 15553,
            side: Side::Buy,
        },
        FxAggBookEntry {
            lp_vol: vec![
                (String::from("UBS "), 3),
                (String::from("CITI "), 1),
                (String::from("BARX "), 1),
                (String::from("BARX "), 5),
            ],
            volume: 10,
            price: 15554,
            side: Side::Buy,
        },
    ];

    aggregator::sort_buy_book(&mut fx_buy_book);

    assert_eq!(
        fx_buy_book,
        vec![
            FxAggBookEntry {
                lp_vol: vec![
                    (String::from("MS "), 3),
                    (String::from("JPMC "), 1),
                    (String::from("CITI "), 5),
                ],
                volume: 9,
                price: 15556,
                side: Side::Buy,
            },
            FxAggBookEntry {
                lp_vol: vec![
                    (String::from("MS "), 1),
                    (String::from("UBS "), 5),
                    (String::from("CITI "), 3),
                    (String::from("BARX "), 3),
                ],
                volume: 12,
                price: 15555,
                side: Side::Buy,
            },
            FxAggBookEntry {
                lp_vol: vec![
                    (String::from("UBS "), 3),
                    (String::from("CITI "), 1),
                    (String::from("BARX "), 1),
                    (String::from("BARX "), 5),
                ],
                volume: 10,
                price: 15554,
                side: Side::Buy,
            },
            FxAggBookEntry {
                lp_vol: vec![(String::from("UBS "), 1)],
                volume: 1,
                price: 15553,
                side: Side::Buy,
            },
        ]
    );
}

#[test]
fn test_sort_by_price() {
    let mut fx_sell_book: Vec<FxAggBookEntry> = vec![
        FxAggBookEntry {
            lp_vol: vec![(String::from("MS "), 3), (String::from("JPMC "), 5)],
            volume: 8,
            price: 15565,
            side: Side::Sell,
        },
        FxAggBookEntry {
            lp_vol: vec![
                (String::from("UBS "), 3),
                (String::from("CITI "), 3),
                (String::from("BARX "), 3),
            ],
            volume: 9,
            price: 15563,
            side: Side::Sell,
        },
        FxAggBookEntry {
            lp_vol: vec![(String::from("JPMC "), 1)],
            volume: 1,
            price: 15567,
            side: Side::Sell,
        },
        FxAggBookEntry {
            lp_vol: vec![
                (String::from("MS "), 5),
                (String::from("UBS "), 1),
                (String::from("CITI "), 1),
                (String::from("BARX "), 1),
                (String::from("BARX "), 5),
            ],
            volume: 13,
            price: 15564,
            side: Side::Sell,
        },
        FxAggBookEntry {
            lp_vol: vec![(String::from("MS "), 1), (String::from("JPMC "), 3)],
            volume: 4,
            price: 15566,
            side: Side::Sell,
        },
    ];

    aggregator::sort_sell_book(&mut fx_sell_book);
    assert_eq!(
        fx_sell_book,
        vec![
            FxAggBookEntry {
                lp_vol: vec![
                    (String::from("UBS "), 3),
                    (String::from("CITI "), 3),
                    (String::from("BARX "), 3),
                ],
                volume: 9,
                price: 15563,
                side: Side::Sell,
            },
            FxAggBookEntry {
                lp_vol: vec![
                    (String::from("MS "), 5),
                    (String::from("UBS "), 1),
                    (String::from("CITI "), 1),
                    (String::from("BARX "), 1),
                    (String::from("BARX "), 5),
                ],
                volume: 13,
                price: 15564,
                side: Side::Sell,
            },
            FxAggBookEntry {
                lp_vol: vec![(String::from("MS "), 3), (String::from("JPMC "), 5)],
                volume: 8,
                price: 15565,
                side: Side::Sell,
            },
            FxAggBookEntry {
                lp_vol: vec![(String::from("MS "), 1), (String::from("JPMC "), 3)],
                volume: 4,
                price: 15566,
                side: Side::Sell,
            },
            FxAggBookEntry {
                lp_vol: vec![(String::from("JPMC "), 1)],
                volume: 1,
                price: 15567,
                side: Side::Sell,
            },
        ]
    );
}

#[test]
fn test_add_agg_book_entry() {
    let currency_pair = String::from("USD/EUR");
    let buy_book: Vec<FxAggBookEntry> = Vec::new();
    let sell_book: Vec<FxAggBookEntry> = Vec::new();
    let timestamp: u64 = 1753440851702449924;

    let mut fx_book = FxBook {
        currency_pair,
        buy_book,
        sell_book,
        timestamp,
    };

    aggregator::add_agg_book_entry(&mut fx_book, "MS", 1, 15556, Side::Buy);

    assert_eq!(
        fx_book.buy_book,
        vec![FxAggBookEntry {
            lp_vol: vec![(String::from("MS "), 1),],
            volume: 1,
            price: 15556,
            side: Side::Buy,
        }]
    )
}

#[test]
fn test_maintain_min_spread() {
    let mut fx_book = FxBook {
        currency_pair: String::from(" USD/EUR"),
        buy_book: vec![
            FxAggBookEntry {
                lp_vol: vec![
                    (String::from("MS "), 1),
                    (String::from("UBS "), 5),
                    (String::from("CITI "), 3),
                    (String::from("BARX "), 3),
                ],
                volume: 12,
                price: 15559,
                side: Side::Buy,
            },
            FxAggBookEntry {
                lp_vol: vec![
                    (String::from("MS "), 3),
                    (String::from("JPMC "), 1),
                    (String::from("CITI "), 5),
                ],
                volume: 9,
                price: 15556,
                side: Side::Buy,
            },
        ],
        sell_book: vec![FxAggBookEntry {
            lp_vol: vec![(String::from("MS "), 3), (String::from("JPMC "), 5)],
            volume: 8,
            price: 15564,
            side: Side::Sell,
        }],
        timestamp: 1753430617683973406,
    };

    aggregator::maintain_min_spread(&mut fx_book);

    assert_eq!(
        fx_book.buy_book,
        vec![FxAggBookEntry {
            lp_vol: vec![
                (String::from("MS "), 3),
                (String::from("JPMC "), 1),
                (String::from("CITI "), 5),
            ],
            volume: 9,
            price: 15556,
            side: Side::Buy,
        }]
    )
}

#[test]
fn test_check_books_crossed() {
    let mut fx_book = FxBook {
        currency_pair: String::from(" USD/EUR"),
        buy_book: vec![
            FxAggBookEntry {
                lp_vol: vec![
                    (String::from("MS "), 1),
                    (String::from("UBS "), 5),
                    (String::from("CITI "), 3),
                    (String::from("BARX "), 3),
                ],
                volume: 12,
                price: 15559,
                side: Side::Buy,
            },
            FxAggBookEntry {
                lp_vol: vec![
                    (String::from("MS "), 3),
                    (String::from("JPMC "), 1),
                    (String::from("CITI "), 5),
                ],
                volume: 9,
                price: 15556,
                side: Side::Buy,
            },
        ],
        sell_book: vec![FxAggBookEntry {
            lp_vol: vec![(String::from("MS "), 3), (String::from("JPMC "), 5)],
            volume: 8,
            price: 15558,
            side: Side::Sell,
        }],
        timestamp: 1753430617683973406,
    };

    assert_eq!(
        aggregator::check_books_crossed(&fx_book),
        Some((0, 15558))
    );
}

#[test]
fn test_remove_entries_from_top() {
    let mut fx_buy_book: Vec<FxAggBookEntry> = vec![
        FxAggBookEntry {
            lp_vol: vec![
                (String::from("MS "), 1),
                (String::from("UBS "), 5),
                (String::from("CITI "), 3),
                (String::from("BARX "), 3),
            ],
            volume: 12,
            price: 15555,
            side: Side::Buy,
        },
        FxAggBookEntry {
            lp_vol: vec![
                (String::from("MS "), 3),
                (String::from("JPMC "), 1),
                (String::from("CITI "), 5),
            ],
            volume: 9,
            price: 15556,
            side: Side::Buy,
        },
        FxAggBookEntry {
            lp_vol: vec![(String::from("UBS "), 1)],
            volume: 1,
            price: 15553,
            side: Side::Buy,
        },
        FxAggBookEntry {
            lp_vol: vec![
                (String::from("UBS "), 3),
                (String::from("CITI "), 1),
                (String::from("BARX "), 1),
                (String::from("BARX "), 5),
            ],
            volume: 10,
            price: 15554,
            side: Side::Buy,
        },
    ];
    aggregator::remove_range_entries_from_top(&mut fx_buy_book, 1);
    assert_eq!(
        fx_buy_book,
        vec![
            FxAggBookEntry {
                lp_vol: vec![(String::from("UBS "), 1)],
                volume: 1,
                price: 15553,
                side: Side::Buy,
            },
            FxAggBookEntry {
                lp_vol: vec![
                    (String::from("UBS "), 3),
                    (String::from("CITI "), 1),
                    (String::from("BARX "), 1),
                    (String::from("BARX "), 5),
                ],
                volume: 10,
                price: 15554,
                side: Side::Buy,
            },
        ]
    )
}

#[test]
fn test_check_expired_quotes() {
    let liquidity_provider = "JPMC ";
    let volume = 1;
    let mut fx_buy_book: Vec<FxAggBookEntry> = vec![
        FxAggBookEntry {
            lp_vol: vec![
                (String::from("MS "), 1),
                (String::from("UBS "), 5),
                (String::from("CITI "), 3),
                (String::from("BARX "), 3),
            ],
            volume: 12,
            price: 15555,
            side: Side::Buy,
        },
        FxAggBookEntry {
            lp_vol: vec![
                (String::from("MS "), 3),
                (String::from("JPMC "), 1),
                (String::from("CITI "), 5),
            ],
            volume: 9,
            price: 15556,
            side: Side::Buy,
        },
        FxAggBookEntry {
            lp_vol: vec![(String::from("UBS "), 1)],
            volume: 1,
            price: 15553,
            side: Side::Buy,
        },
        FxAggBookEntry {
            lp_vol: vec![
                (String::from("UBS "), 3),
                (String::from("CITI "), 1),
                (String::from("BARX "), 1),
                (String::from("BARX "), 5),
            ],
            volume: 10,
            price: 15554,
            side: Side::Buy,
        },
    ];

    match aggregator::check_expired_quotes(&mut fx_buy_book, liquidity_provider, volume) {
        Some(entry_to_remove) => {
            println!("test check expired quotes, index to remove is {entry_to_remove}")
        }
        None => (),
    };

    assert_eq!(
        fx_buy_book,
        vec![
            FxAggBookEntry {
                lp_vol: vec![
                    (String::from("MS "), 1),
                    (String::from("UBS "), 5),
                    (String::from("CITI "), 3),
                    (String::from("BARX "), 3),
                ],
                volume: 12,
                price: 15555,
                side: Side::Buy,
            },
            FxAggBookEntry {
                lp_vol: vec![(String::from("MS "), 3), (String::from("CITI "), 5),],
                volume: 9,
                price: 15556,
                side: Side::Buy,
            },
            FxAggBookEntry {
                lp_vol: vec![(String::from("UBS "), 1)],
                volume: 1,
                price: 15553,
                side: Side::Buy,
            },
            FxAggBookEntry {
                lp_vol: vec![
                    (String::from("UBS "), 3),
                    (String::from("CITI "), 1),
                    (String::from("BARX "), 1),
                    (String::from("BARX "), 5),
                ],
                volume: 10,
                price: 15554,
                side: Side::Buy,
            },
        ]
    )
}
#[test]
fn test_find_buy_index_when_crossed() {
    let mut fx_book = FxBook {
        currency_pair: String::from(" USD/EUR"),
        buy_book: vec![
            FxAggBookEntry {
                lp_vol: vec![
                    (String::from("MS "), 1),
                    (String::from("UBS "), 5),
                    (String::from("CITI "), 3),
                    (String::from("BARX "), 3),
                ],
                volume: 12,
                price: 15566,
                side: Side::Buy,
            },
            FxAggBookEntry {
                lp_vol: vec![
                    (String::from("MS "), 3),
                    (String::from("JPMC "), 1),
                    (String::from("CITI "), 5),
                ],
                volume: 9,
                price: 15565,
                side: Side::Buy,
            },
            FxAggBookEntry {
                lp_vol: vec![(String::from("UBS "), 1)],
                volume: 1,
                price: 15553,
                side: Side::Buy,
            },
            FxAggBookEntry {
                lp_vol: vec![
                    (String::from("UBS "), 3),
                    (String::from("CITI "), 1),
                    (String::from("BARX "), 1),
                    (String::from("BARX "), 5),
                ],
                volume: 10,
                price: 15554,
                side: Side::Buy,
            },
        ],
        sell_book: vec![
            FxAggBookEntry {
                lp_vol: vec![(String::from("MS "), 3), (String::from("JPMC "), 5)],
                volume: 8,
                price: 15565,
                side: Side::Sell,
            },
            FxAggBookEntry {
                lp_vol: vec![
                    (String::from("UBS "), 3),
                    (String::from("CITI "), 3),
                    (String::from("BARX "), 3),
                ],
                volume: 9,
                price: 15563,
                side: Side::Sell,
            },
            FxAggBookEntry {
                lp_vol: vec![(String::from("JPMC "), 1)],
                volume: 1,
                price: 15567,
                side: Side::Sell,
            },
        ],
        timestamp: 1753430617683973406,
    };
    let fx_book_side = aggregator::get_book_side(&fx_book, Side::Buy);
    assert_eq!(
        aggregator::find_buy_index_when_crossed(fx_book_side, 15565),
        Some(1)
    );
}
