use gap_monitor::catalog::{build_catalog, SymbolInfo};
use gap_monitor::codec::{from_toml, to_toml};
use gap_monitor::cycle::{run_cycle, PriceEntry};
use gap_monitor::gap::evaluate;
use gap_monitor::ledger::CheckList;
use gap_monitor::price::parse_price;

fn entry(symbol: &str, price: &str) -> PriceEntry {
    PriceEntry {
        symbol: symbol.to_string(),
        price: price.to_string(),
    }
}

fn info(symbol: &str, contract_type: &str) -> SymbolInfo {
    SymbolInfo {
        symbol: symbol.to_string(),
        contract_type: contract_type.to_string(),
    }
}

#[test]
fn gap_qualifies_above_threshold() {
    // fut = 100, spot = 102, threshold = 1.5% -> gap = 2.0%, qualifies.
    let r = evaluate(100_0000_0000, 102_0000_0000, 15000).unwrap();
    assert!(r.qualifies);
    // exact gap: num / den == 2
    assert_eq!(r.num, 100 * (102_0000_0000i128 - 100_0000_0000i128));
    assert_eq!(r.den, 100_0000_0000);
    assert_eq!(r.num / (r.den as i128), 2);
}

#[test]
fn gap_below_threshold_does_not_qualify() {
    // fut = 100, spot = 100.5, threshold = 1.5% -> gap = 0.5%, no alert.
    let r = evaluate(100_0000_0000, 100_5000_0000, 15000).unwrap();
    assert!(!r.qualifies);
}

#[test]
fn gap_zero_futures_price_is_skipped() {
    // fut = 0 -> no evaluation at all.
    assert!(evaluate(0, 50_0000_0000, 10000).is_none());
}

#[test]
fn gap_negative_gap_never_qualifies() {
    let r = evaluate(102_0000_0000, 100_0000_0000, 0).unwrap();
    assert!(!r.qualifies);
    assert!(r.num < 0);
}

#[test]
fn ledger_arming_example() {
    let mut ledger = CheckList::new();
    assert!(ledger.should_notify("BTCUSDT"));
    ledger.add("BTCUSDT".to_string(), 1000);
    // at t = 1050 with hold 3600 the entry is too young to expire
    let removed = ledger.cleanup(3600, 1050);
    assert!(removed.is_empty());
    assert!(!ledger.should_notify("BTCUSDT"));
    // at t = 4700 the age is 3700 >= 3600: the entry is removed
    let removed = ledger.cleanup(3600, 4700);
    assert_eq!(removed, vec!["BTCUSDT".to_string()]);
    assert!(ledger.should_notify("BTCUSDT"));
}

#[test]
fn ledger_add_is_idempotent_within_a_second() {
    let mut ledger = CheckList::new();
    ledger.add("ETHUSDT".to_string(), 1000);
    ledger.add("ETHUSDT".to_string(), 1000);
    assert_eq!(ledger.len(), 1);
    assert_eq!(ledger.entry(0), ("ETHUSDT".to_string(), 1000));
}

#[test]
fn ledger_add_keeps_latest_timestamp() {
    let mut ledger = CheckList::new();
    ledger.add("ETHUSDT".to_string(), 1000);
    ledger.add("ETHUSDT".to_string(), 1001);
    assert_eq!(ledger.len(), 1);
    assert_eq!(ledger.entry(0), ("ETHUSDT".to_string(), 1001));
}

#[test]
fn cleanup_returns_exactly_the_removed_keys() {
    let mut ledger = CheckList::new();
    ledger.add("OLD".to_string(), 100);
    ledger.add("FRESH".to_string(), 1800);
    let removed = ledger.cleanup(1000, 2000);
    // OLD's age is 1900 >= 1000; FRESH's age is 200 < 1000
    assert_eq!(removed, vec!["OLD".to_string()]);
    assert!(ledger.should_notify("OLD"));
    assert!(!ledger.should_notify("FRESH"));
    assert_eq!(ledger.len(), 1);
}

#[test]
fn cleanup_keeps_entries_from_the_future() {
    let mut ledger = CheckList::new();
    ledger.add("AHEAD".to_string(), 5000);
    let removed = ledger.cleanup(1000, 2000);
    assert!(removed.is_empty());
    assert!(!ledger.should_notify("AHEAD"));
}

#[test]
fn catalog_intersects_and_filters() {
    let futures = vec![info("A", "PERPETUAL"), info("B", "QUARTERLY")];
    let spots = vec!["A".to_string(), "C".to_string()];
    let catalog = build_catalog(&futures, &spots, &Vec::new());
    assert_eq!(catalog, vec!["A".to_string()]);
}

#[test]
fn catalog_respects_blacklist() {
    let futures = vec![info("A", "PERPETUAL"), info("B", "QUARTERLY")];
    let spots = vec!["A".to_string(), "C".to_string()];
    let blacklist = vec!["A".to_string()];
    let catalog = build_catalog(&futures, &spots, &blacklist);
    assert!(catalog.is_empty());
}

#[test]
fn catalog_lists_each_symbol_once() {
    let futures = vec![info("A", "PERPETUAL"), info("A", "PERPETUAL")];
    let spots = vec!["A".to_string()];
    let catalog = build_catalog(&futures, &spots, &Vec::new());
    assert_eq!(catalog, vec!["A".to_string()]);
}

#[test]
fn codec_serializes_one_line_per_entry() {
    let mut ledger = CheckList::new();
    ledger.add("BTCUSDT".to_string(), 1234);
    assert_eq!(to_toml(&ledger), "\"BTCUSDT\" = 1234\n");
}

#[test]
fn codec_round_trips_the_ledger() {
    let mut ledger = CheckList::new();
    ledger.add("BTCUSDT".to_string(), 1000);
    ledger.add("ETHUSDT".to_string(), 2000);
    ledger.add("SOLUSDT".to_string(), 18446744073709551615);
    let text = to_toml(&ledger);
    let loaded = from_toml(&text);
    assert_eq!(loaded.len(), 3);
    assert!(!loaded.should_notify("BTCUSDT"));
    assert!(!loaded.should_notify("ETHUSDT"));
    assert!(!loaded.should_notify("SOLUSDT"));
    assert!(loaded.should_notify("DOGEUSDT"));
    // saving the loaded ledger writes the same text again
    assert_eq!(to_toml(&loaded), text);
    // the timestamps survived: the same cleanup removes the same keys
    let mut a = from_toml(&text);
    let removed = a.cleanup(1500, 3000);
    assert_eq!(removed, vec!["BTCUSDT".to_string()]);
}

#[test]
fn codec_treats_malformed_text_as_empty() {
    let loaded = from_toml("not a ledger at all");
    assert_eq!(loaded.len(), 0);
    assert!(loaded.should_notify("BTCUSDT"));
    let loaded = from_toml("\"KEY\" = notanumber\n");
    assert_eq!(loaded.len(), 0);
}

#[test]
fn codec_parses_what_it_writes_by_hand() {
    let loaded = from_toml("\"A\" = 7\n\"B\" = 8\n");
    assert_eq!(loaded.len(), 2);
    assert_eq!(loaded.entry(0), ("A".to_string(), 7));
    assert_eq!(loaded.entry(1), ("B".to_string(), 8));
}

#[test]
fn price_parses_integers_and_decimals() {
    assert_eq!(parse_price("102"), Some(102_0000_0000));
    assert_eq!(parse_price("102.5"), Some(102_5000_0000));
    assert_eq!(parse_price("0.00000001"), Some(1));
    assert_eq!(parse_price("123."), Some(123_0000_0000));
    assert_eq!(parse_price(".5"), Some(5000_0000));
}

#[test]
fn price_truncates_beyond_eight_decimals() {
    assert_eq!(parse_price("0.123456789"), Some(1234_5678));
}

#[test]
fn price_rejects_malformed_strings() {
    assert_eq!(parse_price(""), None);
    assert_eq!(parse_price("."), None);
    assert_eq!(parse_price("abc"), None);
    assert_eq!(parse_price("1.2.3"), None);
    assert_eq!(parse_price("-5"), None);
    assert_eq!(parse_price("1e5"), None);
}

#[test]
fn cycle_notifies_once_then_holds_then_rearms() {
    // threshold 1.00%, hold 3600 s
    let threshold: u64 = 10000;
    let hold: u64 = 3600;
    let catalog = vec!["BTCUSDT".to_string()];
    let futs = vec![entry("BTCUSDT", "100")];
    let spots = vec![entry("BTCUSDT", "102")];
    let mut ledger = CheckList::new();

    // cycle 1: gap 2.0% > 1.0% and the symbol is armed -> notify
    let alerts = run_cycle(&mut ledger, &catalog, &futs, &spots, threshold, hold, 1000);
    assert_eq!(alerts.len(), 1);
    assert_eq!(alerts[0].symbol, "BTCUSDT");
    assert_eq!(alerts[0].fut_price, 100_0000_0000);
    assert_eq!(alerts[0].spot_price, 102_0000_0000);

    // cycle 2: still qualifying, but on cooldown -> silent
    let alerts = run_cycle(&mut ledger, &catalog, &futs, &spots, threshold, hold, 1060);
    assert!(alerts.is_empty());

    // a cycle after the hold time has passed: re-armed -> notify again
    let alerts = run_cycle(&mut ledger, &catalog, &futs, &spots, threshold, hold, 4600);
    assert_eq!(alerts.len(), 1);
    assert_eq!(alerts[0].symbol, "BTCUSDT");
}

#[test]
fn cycle_skips_missing_and_zero_prices() {
    let catalog = vec!["AAA".to_string(), "BBB".to_string(), "CCC".to_string()];
    // AAA has no spot price; BBB's futures price is zero; CCC is unparsable
    let futs = vec![entry("AAA", "100"), entry("BBB", "0"), entry("CCC", "oops")];
    let spots = vec![entry("BBB", "50"), entry("CCC", "50")];
    let mut ledger = CheckList::new();
    let alerts = run_cycle(&mut ledger, &catalog, &futs, &spots, 0, 3600, 1000);
    assert!(alerts.is_empty());
    assert!(ledger.should_notify("AAA"));
    assert!(ledger.should_notify("BBB"));
    assert!(ledger.should_notify("CCC"));
}

#[test]
fn cycle_ignores_symbols_outside_the_catalog() {
    let catalog = vec!["AAA".to_string()];
    let futs = vec![entry("AAA", "100"), entry("ZZZ", "100")];
    let spots = vec![entry("AAA", "100"), entry("ZZZ", "200")];
    let mut ledger = CheckList::new();
    let alerts = run_cycle(&mut ledger, &catalog, &futs, &spots, 10000, 3600, 1000);
    assert!(alerts.is_empty());
    assert!(ledger.should_notify("ZZZ"));
}

#[test]
fn codec_escapes_quotes_in_symbols() {
    let mut ledger = CheckList::new();
    ledger.add("\"".to_string(), 1);
    assert_eq!(to_toml(&ledger), "\"\\\"\" = 1\n");
}

#[test]
fn codec_round_trips_symbols_with_special_characters() {
    let mut ledger = CheckList::new();
    ledger.add("A\"B".to_string(), 5);
    ledger.add("C\\D".to_string(), 6);
    ledger.add("E\nF".to_string(), 7);
    let text = to_toml(&ledger);
    let loaded = from_toml(&text);
    assert_eq!(loaded.len(), 3);
    assert!(!loaded.should_notify("A\"B"));
    assert!(!loaded.should_notify("C\\D"));
    assert!(!loaded.should_notify("E\nF"));
    assert_eq!(loaded.entry(0), ("A\"B".to_string(), 5));
    assert_eq!(to_toml(&loaded), text);
}

#[test]
fn cycle_uses_the_last_listed_price() {
    // a repeated symbol's later price wins, as in a map filled by insertion
    let catalog = vec!["AAA".to_string()];
    let futs = vec![entry("AAA", "0"), entry("AAA", "100")];
    let spots = vec![entry("AAA", "200"), entry("AAA", "102")];
    let mut ledger = CheckList::new();
    let alerts = run_cycle(&mut ledger, &catalog, &futs, &spots, 10000, 3600, 1000);
    assert_eq!(alerts.len(), 1);
    assert_eq!(alerts[0].fut_price, 100_0000_0000);
    assert_eq!(alerts[0].spot_price, 102_0000_0000);
}
