//! One polling cycle: clean up the ledger, evaluate every catalog symbol
//! against the current prices, and approve the qualifying symbols that are
//! armed, recording each approval in the ledger.

use vstd::prelude::*;
use crate::gap::{evaluate, gap_exceeds};
use crate::ledger::{cleaned, CheckList};
use crate::ledger::strs_distinct;
use crate::price::price_units;
use crate::price::parse_price;
use crate::text::{lemma_seq_has_str_push, seq_has_str, str_eq};

verus! {

/// One symbol's current price as a market reports it: the symbol and the
/// price as the exchange's decimal string.
pub struct PriceEntry {
    pub symbol: String,
    pub price: String,
}

impl View for PriceEntry {
    type V = (Seq<char>, Seq<char>);

    open spec fn view(&self) -> (Seq<char>, Seq<char>) {
        (self.symbol@, self.price@)
    }
}

/// The symbols and price strings of a market's listing.
pub open spec fn prices_view(v: Seq<PriceEntry>) -> Seq<(Seq<char>, Seq<char>)> {
    v.map_values(|x: PriceEntry| x@)
}

/// The price string a listing reports for a symbol, if any: when a listing
/// repeats a symbol, the last entry wins, as in a map filled by insertion.
pub open spec fn lookup(entries: Seq<(Seq<char>, Seq<char>)>, sym: Seq<char>) -> Option<Seq<char>>
    decreases entries.len(),
{
    if entries.len() == 0 {
        None
    } else if entries.last().0 == sym {
        Some(entries.last().1)
    } else {
        lookup(entries.drop_last(), sym)
    }
}

pub proof fn lemma_lookup_at(
    entries: Seq<(Seq<char>, Seq<char>)>,
    sym: Seq<char>,
    i: int,
)
    requires
        0 <= i < entries.len(),
        entries[i].0 == sym,
        forall|j: int| i < j < entries.len() ==> entries[j].0 != sym,
    ensures
        lookup(entries, sym) == Some(entries[i].1),
    decreases entries.len(),
{
    if i == entries.len() - 1 {
    } else {
        assert(entries.last().0 != sym);
        assert(entries.drop_last()[i] == entries[i]);
        assert forall|j: int| i < j < entries.drop_last().len()
            implies entries.drop_last()[j].0 != sym by {
            assert(entries.drop_last()[j] == entries[j]);
        }
        lemma_lookup_at(entries.drop_last(), sym, i);
    }
}

pub proof fn lemma_lookup_none(entries: Seq<(Seq<char>, Seq<char>)>, sym: Seq<char>)
    requires
        forall|j: int| 0 <= j < entries.len() ==> entries[j].0 != sym,
    ensures
        lookup(entries, sym) is None,
    decreases entries.len(),
{
    if entries.len() > 0 {
        assert forall|j: int| 0 <= j < entries.drop_last().len()
            implies entries.drop_last()[j].0 != sym by {
            assert(entries.drop_last()[j] == entries[j]);
        }
        lemma_lookup_none(entries.drop_last(), sym);
    }
}

/// The units a reported price string denotes; an unparsable string counts
/// as a zero price.
pub open spec fn units_or_zero(p: Seq<char>) -> u64 {
    match price_units(p) {
        Some(u) => u,
        None => 0,
    }
}

/// A symbol's prices qualify for an alert this cycle: both markets list it,
/// its futures price is positive, and the exact gap exceeds the threshold.
pub open spec fn alert_due(
    futs: Seq<(Seq<char>, Seq<char>)>,
    spots: Seq<(Seq<char>, Seq<char>)>,
    thr: u64,
    sym: Seq<char>,
) -> bool {
    &&& lookup(futs, sym) is Some
    &&& lookup(spots, sym) is Some
    &&& units_or_zero(lookup(futs, sym).unwrap()) > 0
    &&& gap_exceeds(
        units_or_zero(lookup(futs, sym).unwrap()) as int,
        units_or_zero(lookup(spots, sym).unwrap()) as int,
        thr as int,
    )
}

/// The ledger after one cycle over a cleaned ledger `cl`: every catalog
/// symbol whose prices qualify gains an entry at `now`; entries of `cl`
/// stay as they are.
pub open spec fn cycle_ledger(
    cl: Map<Seq<char>, u64>,
    cat: Seq<Seq<char>>,
    futs: Seq<(Seq<char>, Seq<char>)>,
    spots: Seq<(Seq<char>, Seq<char>)>,
    thr: u64,
    now: u64,
) -> Map<Seq<char>, u64> {
    Map::new(
        |k: Seq<char>| cl.contains_key(k) || (seq_has_str(cat, k) && alert_due(futs, spots, thr, k)),
        |k: Seq<char>| if cl.contains_key(k) { cl[k] } else { now },
    )
}

/// One approved alert: the symbol and its two prices in `10^-8` units.
pub struct Alert {
    pub symbol: String,
    pub fut_price: u64,
    pub spot_price: u64,
}

impl View for Alert {
    type V = (Seq<char>, u64, u64);

    open spec fn view(&self) -> (Seq<char>, u64, u64) {
        (self.symbol@, self.fut_price, self.spot_price)
    }
}

/// The last listed price of a symbol, if the listing has one.
fn lookup_exec<'a>(entries: &'a Vec<PriceEntry>, sym: &str) -> (r: Option<&'a String>)
    ensures
        r is Some <==> lookup(prices_view(entries@), sym@) is Some,
        r is Some ==> r.unwrap()@ == lookup(prices_view(entries@), sym@).unwrap(),
{
    let ghost pv = prices_view(entries@);
    let n = entries.len();
    let mut i: usize = n;
    while i > 0
        invariant
            i <= n,
            n == entries.len(),
            pv == prices_view(entries@),
            pv.len() == n,
            forall|j: int| i <= j < n ==> pv[j].0 != sym@,
        decreases i,
    {
        i -= 1;
        proof {
            assert(pv[i as int] == entries@[i as int]@);
        }
        if str_eq(entries[i].symbol.as_str(), sym) {
            proof {
                lemma_lookup_at(pv, sym@, i as int);
            }
            return Some(&entries[i].price);
        }
    }
    proof {
        lemma_lookup_none(pv, sym@);
    }
    None
}

/// Runs one cycle: cleans up the ledger at `now`, then walks the catalog,
/// and for every symbol whose gap qualifies and which is armed, emits an
/// alert and puts the symbol on cooldown as of `now`.
#[verifier::rlimit(100)]
pub fn run_cycle(
    ledger: &mut CheckList,
    catalog: &Vec<String>,
    futures_prices: &Vec<PriceEntry>,
    spot_prices: &Vec<PriceEntry>,
    threshold: u64,
    hold_time_secs: u64,
    now: u64,
) -> (alerts: Vec<Alert>)
    requires
        old(ledger).wf(),
        strs_distinct(catalog.deep_view()),
    ensures
        final(ledger).wf(),
        final(ledger)@ == cycle_ledger(
            cleaned(old(ledger)@, now, hold_time_secs),
            catalog.deep_view(),
            prices_view(futures_prices@),
            prices_view(spot_prices@),
            threshold,
            now,
        ),
        forall|j: int| 0 <= j < alerts@.len() ==> {
            let a = (#[trigger] alerts@[j])@;
            &&& seq_has_str(catalog.deep_view(), a.0)
            &&& alert_due(prices_view(futures_prices@), prices_view(spot_prices@), threshold, a.0)
            &&& !cleaned(old(ledger)@, now, hold_time_secs).contains_key(a.0)
            &&& a.1 == units_or_zero(lookup(prices_view(futures_prices@), a.0).unwrap())
            &&& a.2 == units_or_zero(lookup(prices_view(spot_prices@), a.0).unwrap())
        },
        forall|k: Seq<char>|
            seq_has_str(catalog.deep_view(), k)
                && alert_due(prices_view(futures_prices@), prices_view(spot_prices@), threshold, k)
                && !cleaned(old(ledger)@, now, hold_time_secs).contains_key(k)
                ==> exists|j: int| 0 <= j < alerts@.len() && (#[trigger] alerts@[j])@.0 == k,
        forall|a: int, b: int|
            0 <= a < b < alerts@.len() ==> (#[trigger] alerts@[a])@.0 != (#[trigger] alerts@[b])@.0,
{
    let ghost cat = catalog.deep_view();
    let ghost futs = prices_view(futures_prices@);
    let ghost spots = prices_view(spot_prices@);
    let _removed = ledger.cleanup(hold_time_secs, now);
    let ghost cl0 = ledger@;
    let mut alerts: Vec<Alert> = Vec::new();
    let n = catalog.len();
    let mut i: usize = 0;
    proof {
        assert(cat.subrange(0, 0) =~= Seq::<Seq<char>>::empty());
        assert(ledger@ =~= cycle_ledger(cl0, cat.subrange(0, 0), futs, spots, threshold, now));
    }
    while i < n
        invariant
            i <= n,
            n == catalog.len(),
            cat == catalog.deep_view(),
            cat.len() == n,
            strs_distinct(cat),
            futs == prices_view(futures_prices@),
            spots == prices_view(spot_prices@),
            ledger.wf(),
            ledger@ == cycle_ledger(cl0, cat.subrange(0, i as int), futs, spots, threshold, now),
            forall|j: int| 0 <= j < alerts@.len() ==> {
                let a = (#[trigger] alerts@[j])@;
                &&& exists|l: int| 0 <= l < i && cat[l] == a.0
                &&& alert_due(futs, spots, threshold, a.0)
                &&& !cl0.contains_key(a.0)
                &&& a.1 == units_or_zero(lookup(futs, a.0).unwrap())
                &&& a.2 == units_or_zero(lookup(spots, a.0).unwrap())
            },
            forall|l: int|
                0 <= l < i && alert_due(futs, spots, threshold, #[trigger] cat[l])
                    && !cl0.contains_key(cat[l])
                    ==> exists|j: int| 0 <= j < alerts@.len() && alerts@[j]@.0 == cat[l],
            forall|a: int, b: int|
                0 <= a < b < alerts@.len()
                    ==> (#[trigger] alerts@[a])@.0 != (#[trigger] alerts@[b])@.0,
        decreases n - i,
    {
        let sym = &catalog[i];
        proof {
            assert(cat[i as int] == catalog@[i as int]@);
            assert(cat.subrange(0, i + 1 as int)
                =~= cat.subrange(0, i as int).push(cat[i as int]));
            lemma_seq_has_str_push(cat.subrange(0, i as int), cat[i as int]);
            assert forall|l: int| 0 <= l < i
                implies cat.subrange(0, i as int)[l] != cat[i as int] by {
                assert(cat.subrange(0, i as int)[l] == cat[l]);
            }
            assert(!seq_has_str(cat.subrange(0, i as int), cat[i as int]));
        }
        let fut_opt = lookup_exec(futures_prices, sym.as_str());
        let spot_opt = lookup_exec(spot_prices, sym.as_str());
        let mut fired: bool = false;
        if let (Some(fut_str), Some(spot_str)) = (fut_opt, spot_opt) {
            let fu = match parse_price(fut_str.as_str()) {
                Some(u) => u,
                None => 0,
            };
            let su = match parse_price(spot_str.as_str()) {
                Some(u) => u,
                None => 0,
            };
            proof {
                assert(fu == units_or_zero(lookup(futs, cat[i as int]).unwrap()));
                assert(su == units_or_zero(lookup(spots, cat[i as int]).unwrap()));
            }
            if let Some(g) = evaluate(fu, su, threshold) {
                if g.qualifies {
                    if ledger.should_notify(sym.as_str()) {
                        proof {
                            assert(alert_due(futs, spots, threshold, cat[i as int]));
                            assert(!ledger@.contains_key(cat[i as int]));
                            assert(!cl0.contains_key(cat[i as int]));
                        }
                        let ghost led_pre = ledger@;
                        let ghost av0 = alerts@;
                        alerts.push(Alert {
                            symbol: sym.clone(),
                            fut_price: fu,
                            spot_price: su,
                        });
                        ledger.add(sym.clone(), now);
                        fired = true;
                        proof {
                            assert(ledger@ == led_pre.insert(cat[i as int], now));
                            assert(seq_has_str(
                                cat.subrange(0, i + 1 as int), cat[i as int]));
                            assert(ledger@ =~= cycle_ledger(
                                cl0, cat.subrange(0, i + 1 as int), futs, spots, threshold, now,
                            ));
                            assert(alerts@.len() == av0.len() + 1);
                            assert(alerts@[av0.len() as int]@
                                == (cat[i as int], fu, su));
                            assert forall|j: int| 0 <= j < alerts@.len() implies {
                                let a = (#[trigger] alerts@[j])@;
                                &&& exists|l: int| 0 <= l < i + 1 && cat[l] == a.0
                                &&& alert_due(futs, spots, threshold, a.0)
                                &&& !cl0.contains_key(a.0)
                                &&& a.1 == units_or_zero(lookup(futs, a.0).unwrap())
                                &&& a.2 == units_or_zero(lookup(spots, a.0).unwrap())
                            } by {
                                if j < av0.len() {
                                    assert(alerts@[j] == av0[j]);
                                    let l = choose|l: int| 0 <= l < i && cat[l] == av0[j]@.0;
                                    assert(0 <= l < i + 1 && cat[l] == alerts@[j]@.0);
                                } else {
                                    assert(cat[i as int] == alerts@[j]@.0);
                                }
                            }
                            assert forall|l: int|
                                0 <= l < i + 1
                                    && alert_due(futs, spots, threshold, #[trigger] cat[l])
                                    && !cl0.contains_key(cat[l])
                                    implies exists|j: int|
                                    0 <= j < alerts@.len() && alerts@[j]@.0 == cat[l] by {
                                if l < i {
                                    let j = choose|j: int|
                                        0 <= j < av0.len() && av0[j]@.0 == cat[l];
                                    assert(alerts@[j]@.0 == cat[l]);
                                } else {
                                    assert(alerts@[av0.len() as int]@.0 == cat[l]);
                                }
                            }
                            assert forall|a: int, b: int| 0 <= a < b < alerts@.len()
                                implies alerts@[a]@.0 != alerts@[b]@.0 by {
                                if b == av0.len() {
                                    assert(alerts@[a] == av0[a]);
                                    let l = choose|l: int| 0 <= l < i && cat[l] == av0[a]@.0;
                                    assert(cat[l] != cat[i as int]);
                                } else {
                                    assert(alerts@[a] == av0[a] && alerts@[b] == av0[b]);
                                }
                            }
                        }
                    }
                }
            }
        }
        if !fired {
            proof {
                let due_here = alert_due(futs, spots, threshold, cat[i as int])
                    && !cl0.contains_key(cat[i as int]);
                if due_here {
                    assert(!ledger@.contains_key(cat[i as int]));
                }
                assert(ledger@ =~= cycle_ledger(
                    cl0, cat.subrange(0, i + 1 as int), futs, spots, threshold, now,
                ));
                assert forall|l: int|
                    0 <= l < i + 1 && alert_due(futs, spots, threshold, #[trigger] cat[l])
                        && !cl0.contains_key(cat[l])
                        implies exists|j: int|
                        0 <= j < alerts@.len() && alerts@[j]@.0 == cat[l] by {
                    assert(l < i);
                }
            }
        }
        i += 1;
    }
    proof {
        assert(cat.subrange(0, n as int) =~= cat);
    }
    alerts
}

} // verus!
