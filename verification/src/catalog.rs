//! The symbol catalog: the set of symbols monitored for the whole run.

use vstd::prelude::*;
use crate::text::{str_eq, contains_str, seq_has_str};
use crate::ledger::strs_distinct;

verus! {

/// One entry of the futures exchange listing: a symbol and its
/// contract-type tag.
pub struct SymbolInfo {
    pub symbol: String,
    pub contract_type: String,
}

impl View for SymbolInfo {
    type V = (Seq<char>, Seq<char>);

    open spec fn view(&self) -> (Seq<char>, Seq<char>) {
        (self.symbol@, self.contract_type@)
    }
}

/// The symbols and tags of a futures listing.
pub open spec fn infos_view(v: Seq<SymbolInfo>) -> Seq<(Seq<char>, Seq<char>)> {
    v.map_values(|x: SymbolInfo| x@)
}

/// A contract-type tag marks a perpetual contract.
pub open spec fn is_perpetual(ct: Seq<char>) -> bool {
    ct == "PERPETUAL"@
}

/// A symbol belongs to the catalog: some futures entry lists it as a
/// perpetual contract, the spot market lists it, and it is not blacklisted.
pub open spec fn in_catalog(
    futs: Seq<(Seq<char>, Seq<char>)>,
    spots: Seq<Seq<char>>,
    blacklist: Seq<Seq<char>>,
    s: Seq<char>,
) -> bool {
    &&& exists|i: int| 0 <= i < futs.len() && futs[i].0 == s && is_perpetual(futs[i].1)
    &&& seq_has_str(spots, s)
    &&& !seq_has_str(blacklist, s)
}

/// Builds the catalog once at startup: every perpetual futures symbol that
/// also has a spot pair, minus the blacklist, each symbol listed once.
pub fn build_catalog(
    futures: &Vec<SymbolInfo>,
    spot_symbols: &Vec<String>,
    blacklist: &Vec<String>,
) -> (r: Vec<String>)
    ensures
        forall|s: Seq<char>| #![trigger seq_has_str(r.deep_view(), s)]
            seq_has_str(r.deep_view(), s) <==> in_catalog(
                infos_view(futures@),
                spot_symbols.deep_view(),
                blacklist.deep_view(),
                s,
            ),
        strs_distinct(r.deep_view()),
{
    let ghost futs = infos_view(futures@);
    let ghost spots = spot_symbols.deep_view();
    let ghost bl = blacklist.deep_view();
    let mut out: Vec<String> = Vec::new();
    let n = futures.len();
    let mut i: usize = 0;
    while i < n
        invariant
            i <= n,
            n == futures.len(),
            futs == infos_view(futures@),
            futs.len() == n,
            spots == spot_symbols.deep_view(),
            bl == blacklist.deep_view(),
            forall|s: Seq<char>| #![trigger seq_has_str(out.deep_view(), s)]
                seq_has_str(out.deep_view(), s) <==> {
                    &&& exists|l: int| 0 <= l < i && futs[l].0 == s && is_perpetual(futs[l].1)
                    &&& seq_has_str(spots, s)
                    &&& !seq_has_str(bl, s)
                },
            strs_distinct(out.deep_view()),
        decreases n - i,
    {
        let ghost od = out.deep_view();
        let entry = &futures[i];
        proof {
            assert(futs[i as int] == futures@[i as int]@);
        }
        let is_perp = str_eq(entry.contract_type.as_str(), "PERPETUAL");
        let in_spot = contains_str(spot_symbols, entry.symbol.as_str());
        let in_bl = contains_str(blacklist, entry.symbol.as_str());
        let already = contains_str(&out, entry.symbol.as_str());
        if is_perp && in_spot && !in_bl && !already {
            out.push(entry.symbol.clone());
            proof {
                let od1 = out.deep_view();
                assert(od1 =~= od.push(futs[i as int].0));
                assert forall|s: Seq<char>| #[trigger] seq_has_str(od1, s)
                    implies (seq_has_str(od, s) || s == futs[i as int].0) by {
                    let j = choose|j: int| 0 <= j < od1.len() && od1[j] == s;
                    if j < od.len() {
                        assert(od[j] == s);
                    }
                }
                assert forall|s: Seq<char>| seq_has_str(od, s) || s == futs[i as int].0
                    implies #[trigger] seq_has_str(od1, s) by {
                    if seq_has_str(od, s) {
                        let j = choose|j: int| 0 <= j < od.len() && od[j] == s;
                        assert(od1[j] == s);
                    } else {
                        assert(od1[od.len() as int] == s);
                    }
                }
                assert forall|s: Seq<char>| #[trigger] seq_has_str(od1, s)
                    implies {
                        &&& exists|l: int|
                            0 <= l < i + 1 && futs[l].0 == s && is_perpetual(futs[l].1)
                        &&& seq_has_str(spots, s)
                        &&& !seq_has_str(bl, s)
                    } by {
                    if seq_has_str(od, s) {
                        let l = choose|l: int|
                            0 <= l < i && futs[l].0 == s && is_perpetual(futs[l].1);
                        assert(0 <= l < i + 1 && futs[l].0 == s && is_perpetual(futs[l].1));
                    } else {
                        assert(s == futs[i as int].0);
                        assert(futs[i as int].0 == s && is_perpetual(futs[i as int].1));
                    }
                }
                assert forall|s: Seq<char>|
                    ({
                        &&& exists|l: int|
                            0 <= l < i + 1 && futs[l].0 == s && is_perpetual(futs[l].1)
                        &&& seq_has_str(spots, s)
                        &&& !seq_has_str(bl, s)
                    }) implies #[trigger] seq_has_str(od1, s) by {
                    let l = choose|l: int|
                        0 <= l < i + 1 && futs[l].0 == s && is_perpetual(futs[l].1);
                    if l < i {
                        assert(seq_has_str(od, s));
                    } else {
                        assert(s == futs[i as int].0);
                        assert(od1[od.len() as int] == s);
                    }
                }
                assert forall|a: int, b: int| 0 <= a < b < od1.len()
                    implies od1[a] != od1[b] by {
                    if b == od.len() {
                        assert(od1[a] == od[a]);
                        assert(seq_has_str(od, od[a]));
                    } else {
                        assert(od1[a] == od[a] && od1[b] == od[b]);
                    }
                }
            }
        } else {
            proof {
                assert forall|s: Seq<char>|
                    ({
                        &&& exists|l: int|
                            0 <= l < i + 1 && futs[l].0 == s && is_perpetual(futs[l].1)
                        &&& seq_has_str(spots, s)
                        &&& !seq_has_str(bl, s)
                    }) implies #[trigger] seq_has_str(od, s) by {
                    let l = choose|l: int|
                        0 <= l < i + 1 && futs[l].0 == s && is_perpetual(futs[l].1);
                    if l < i {
                        assert(seq_has_str(od, s));
                    } else {
                        assert(s == futs[i as int].0);
                        assert(is_perp && in_spot && !in_bl);
                        assert(already);
                    }
                }
                assert forall|s: Seq<char>| #[trigger] seq_has_str(od, s)
                    implies {
                        &&& exists|l: int|
                            0 <= l < i + 1 && futs[l].0 == s && is_perpetual(futs[l].1)
                        &&& seq_has_str(spots, s)
                        &&& !seq_has_str(bl, s)
                    } by {
                    let l = choose|l: int|
                        0 <= l < i && futs[l].0 == s && is_perpetual(futs[l].1);
                    assert(0 <= l < i + 1 && futs[l].0 == s && is_perpetual(futs[l].1));
                }
            }
        }
        i += 1;
    }
    out
}

} // verus!
