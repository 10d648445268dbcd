//! The notification ledger: which symbols have already been notified, and
//! when, so that a symbol alerts again only after a hold period has passed.

use vstd::prelude::*;
use crate::text::str_eq;

verus! {

/// The map described by a sequence of key/value entries; later entries win.
pub open spec fn map_of(es: Seq<(Seq<char>, u64)>) -> Map<Seq<char>, u64>
    decreases es.len(),
{
    if es.len() == 0 {
        Map::empty()
    } else {
        map_of(es.drop_last()).insert(es.last().0, es.last().1)
    }
}

/// Entry keys are pairwise distinct.
pub open spec fn keys_distinct(es: Seq<(Seq<char>, u64)>) -> bool {
    forall|i: int, j: int| 0 <= i < j < es.len() ==> es[i].0 != es[j].0
}

/// An entry recorded at `ts` has expired by `now` under hold time `hold`:
/// its age has reached `hold`. An entry from the future has no age yet.
pub open spec fn expired(ts: u64, now: u64, hold: u64) -> bool {
    now - ts >= hold
}

/// The ledger after removing every entry that has expired by `now`.
pub open spec fn cleaned(m: Map<Seq<char>, u64>, now: u64, hold: u64) -> Map<Seq<char>, u64> {
    Map::new(
        |k: Seq<char>| m.contains_key(k) && !expired(m[k], now, hold),
        |k: Seq<char>| m[k],
    )
}

/// The character sequences in `ss` are pairwise distinct.
pub open spec fn strs_distinct(ss: Seq<Seq<char>>) -> bool {
    forall|a: int, b: int| 0 <= a < b < ss.len() ==> ss[a] != ss[b]
}

/// The set of character sequences occurring in `ss`.
pub open spec fn str_set(ss: Seq<Seq<char>>) -> Set<Seq<char>> {
    Set::new(|k: Seq<char>| exists|i: int| 0 <= i < ss.len() && ss[i] == k)
}

pub proof fn lemma_map_of_contains(es: Seq<(Seq<char>, u64)>, k: Seq<char>)
    ensures
        map_of(es).contains_key(k) <==> exists|i: int| 0 <= i < es.len() && es[i].0 == k,
    decreases es.len(),
{
    if es.len() > 0 {
        lemma_map_of_contains(es.drop_last(), k);
        if es.last().0 == k {
            assert(es[es.len() - 1].0 == k);
        } else {
            if map_of(es).contains_key(k) {
                let i = choose|i: int| 0 <= i < es.drop_last().len() && es.drop_last()[i].0 == k;
                assert(es[i].0 == k);
            }
            if exists|i: int| 0 <= i < es.len() && es[i].0 == k {
                let i = choose|i: int| 0 <= i < es.len() && es[i].0 == k;
                assert(i < es.len() - 1);
                assert(es.drop_last()[i].0 == k);
            }
        }
    }
}

pub proof fn lemma_map_of_index(es: Seq<(Seq<char>, u64)>, i: int)
    requires
        keys_distinct(es),
        0 <= i < es.len(),
    ensures
        map_of(es).contains_key(es[i].0),
        map_of(es)[es[i].0] == es[i].1,
    decreases es.len(),
{
    if i == es.len() - 1 {
    } else {
        assert(keys_distinct(es.drop_last()));
        assert(es.drop_last()[i] == es[i]);
        lemma_map_of_index(es.drop_last(), i);
        assert(es[i].0 != es.last().0);
    }
}

pub proof fn lemma_map_of_update(es: Seq<(Seq<char>, u64)>, i: int, v: u64)
    requires
        keys_distinct(es),
        0 <= i < es.len(),
    ensures
        map_of(es.update(i, (es[i].0, v))) == map_of(es).insert(es[i].0, v),
    decreases es.len(),
{
    let es2 = es.update(i, (es[i].0, v));
    if i == es.len() - 1 {
        assert(es2.drop_last() =~= es.drop_last());
        assert(es2.last() == (es[i].0, v));
        assert(map_of(es2) =~= map_of(es).insert(es[i].0, v));
    } else {
        assert(keys_distinct(es.drop_last()));
        assert(es.drop_last()[i] == es[i]);
        lemma_map_of_update(es.drop_last(), i, v);
        assert(es2.drop_last() =~= es.drop_last().update(i, (es[i].0, v)));
        assert(es2.last() == es.last());
        assert(es[i].0 != es.last().0);
        assert(map_of(es2) =~= map_of(es).insert(es[i].0, v));
    }
}

pub proof fn lemma_map_of_push(es: Seq<(Seq<char>, u64)>, k: Seq<char>, v: u64)
    ensures
        map_of(es.push((k, v))) == map_of(es).insert(k, v),
{
    assert(es.push((k, v)).drop_last() =~= es);
    assert(es.push((k, v)).last() == (k, v));
}

/// Records, per symbol, the epoch second of the last notification that was
/// sent for it and has not yet expired. A symbol without an entry is armed:
/// it may notify immediately. A symbol with an entry is on cooldown.
pub struct CheckList {
    checked: Vec<(String, u64)>,
}

impl View for CheckList {
    type V = Map<Seq<char>, u64>;

    closed spec fn view(&self) -> Map<Seq<char>, u64> {
        map_of(self.checked.deep_view())
    }
}

impl CheckList {
    /// Each symbol has at most one entry.
    pub closed spec fn wf(&self) -> bool {
        keys_distinct(self.checked.deep_view())
    }

    /// The entries in storage order, as character sequences and timestamps.
    pub closed spec fn entries(&self) -> Seq<(Seq<char>, u64)> {
        self.checked.deep_view()
    }

    /// The ledger's map is exactly the one its entries describe.
    pub proof fn lemma_view_entries(&self)
        ensures
            self@ == map_of(self.entries()),
    {
    }

    /// The number of ledger entries.
    pub fn len(&self) -> (n: usize)
        ensures
            n == self.entries().len(),
    {
        self.checked.len()
    }

    /// A copy of the entry at `i`: its symbol and its timestamp.
    pub fn entry(&self, i: usize) -> (e: (String, u64))
        requires
            i < self.entries().len(),
        ensures
            e.0@ == self.entries()[i as int].0,
            e.1 == self.entries()[i as int].1,
    {
        (self.checked[i].0.clone(), self.checked[i].1)
    }

    /// An empty ledger: every symbol is armed.
    pub fn new() -> (r: CheckList)
        ensures
            r.wf(),
            r@ == Map::<Seq<char>, u64>::empty(),
            r.entries() == Seq::<(Seq<char>, u64)>::empty(),
    {
        let r = CheckList { checked: Vec::new() };
        proof {
            assert(r.checked.deep_view() =~= Seq::<(Seq<char>, u64)>::empty());
        }
        r
    }

    /// True iff the symbol is armed: it has no entry in the ledger.
    pub fn should_notify(&self, symbol: &str) -> (r: bool)
        ensures
            r == !self@.contains_key(symbol@),
    {
        let ghost dv = self.checked.deep_view();
        let n = self.checked.len();
        let mut i: usize = 0;
        proof {
            lemma_map_of_contains(dv, symbol@);
        }
        while i < n
            invariant
                i <= n,
                n == self.checked.len(),
                dv == self.checked.deep_view(),
                dv.len() == n,
                forall|j: int| 0 <= j < i ==> dv[j].0 != symbol@,
            decreases n - i,
        {
            proof {
                assert(dv[i as int].0 == self.checked@[i as int].0@);
            }
            if str_eq(self.checked[i].0.as_str(), symbol) {
                proof {
                    lemma_map_of_contains(dv, symbol@);
                }
                return false;
            }
            i += 1;
        }
        proof {
            lemma_map_of_contains(dv, symbol@);
        }
        true
    }

    /// Inserts or overwrites the symbol's entry with the given current time,
    /// putting the symbol on cooldown as of `now`.
    pub fn add(&mut self, symbol: String, now: u64)
        requires
            old(self).wf(),
        ensures
            final(self).wf(),
            final(self)@ == old(self)@.insert(symbol@, now),
    {
        let ghost dv = self.checked.deep_view();
        let n = self.checked.len();
        let mut i: usize = 0;
        while i < n
            invariant
                i <= n,
                n == self.checked.len(),
                self == old(self),
                dv == self.checked.deep_view(),
                dv.len() == n,
                keys_distinct(dv),
                forall|j: int| 0 <= j < i ==> dv[j].0 != symbol@,
            decreases n - i,
        {
            proof {
                assert(dv[i as int].0 == self.checked@[i as int].0@);
            }
            if str_eq(self.checked[i].0.as_str(), symbol.as_str()) {
                proof {
                    lemma_map_of_update(dv, i as int, now);
                }
                self.checked[i] = (symbol, now);
                proof {
                    let dv2 = self.checked.deep_view();
                    assert(dv2 =~= dv.update(i as int, (dv[i as int].0, now)));
                    assert forall|a: int, b: int| 0 <= a < b < dv2.len()
                        implies dv2[a].0 != dv2[b].0 by {
                        assert(dv2[a].0 == dv[a].0);
                        assert(dv2[b].0 == dv[b].0);
                    }
                }
                return;
            }
            i += 1;
        }
        proof {
            lemma_map_of_push(dv, symbol@, now);
        }
        self.checked.push((symbol, now));
        proof {
            assert(self.checked.deep_view() =~= dv.push((symbol@, now)));
            assert(keys_distinct(self.checked.deep_view()));
        }
    }

    /// Removes every entry whose age by `now` has reached `hold_time_secs`,
    /// re-arming those symbols, and returns exactly the removed symbols.
    pub fn cleanup(&mut self, hold_time_secs: u64, now: u64) -> (removed: Vec<String>)
        requires
            old(self).wf(),
        ensures
            final(self).wf(),
            final(self)@ == cleaned(old(self)@, now, hold_time_secs),
            str_set(removed.deep_view()) =~= old(self)@.dom().difference(final(self)@.dom()),
            final(self)@.dom() =~= old(self)@.dom().difference(str_set(removed.deep_view())),
            strs_distinct(removed.deep_view()),
    {
        let ghost dv = self.checked.deep_view();
        let n = self.checked.len();
        let mut kept: Vec<(String, u64)> = Vec::new();
        let mut removed: Vec<String> = Vec::new();
        let mut i: usize = 0;
        while i < n
            invariant
                i <= n,
                n == self.checked.len(),
                self == old(self),
                dv == self.checked.deep_view(),
                dv.len() == n,
                kept.deep_view() == dv.subrange(0, i as int).filter(
                    |e: (Seq<char>, u64)| !expired(e.1, now, hold_time_secs),
                ),
                removed.deep_view() == dv.subrange(0, i as int).filter(
                    |e: (Seq<char>, u64)| expired(e.1, now, hold_time_secs),
                ).map_values(|e: (Seq<char>, u64)| e.0),
            decreases n - i,
        {
            let ghost kd0 = kept.deep_view();
            let ghost rd0 = removed.deep_view();
            let sym = self.checked[i].0.clone();
            let ts = self.checked[i].1;
            proof {
                assert(dv[i as int] == (self.checked@[i as int].0@, self.checked@[i as int].1));
                assert(sym@ == dv[i as int].0);
                assert(dv.subrange(0, i + 1 as int).drop_last() =~= dv.subrange(0, i as int));
                assert(dv.subrange(0, i + 1 as int).last() == dv[i as int]);
            }
            let is_exp = now >= ts && now - ts >= hold_time_secs;
            proof {
                assert(is_exp == expired(dv[i as int].1, now, hold_time_secs));
            }
            if is_exp {
                removed.push(sym);
                proof {
                    reveal_with_fuel(Seq::<_>::filter, 2);
                    assert(dv.subrange(0, i + 1 as int).filter(
                        |e: (Seq<char>, u64)| expired(e.1, now, hold_time_secs),
                    ) == dv.subrange(0, i as int).filter(
                        |e: (Seq<char>, u64)| expired(e.1, now, hold_time_secs),
                    ).push(dv[i as int]));
                    assert(removed.deep_view() =~= rd0.push(dv[i as int].0));
                    assert(dv.subrange(0, i as int).filter(
                        |e: (Seq<char>, u64)| expired(e.1, now, hold_time_secs),
                    ).push(dv[i as int]).map_values(|e: (Seq<char>, u64)| e.0)
                        =~= rd0.push(dv[i as int].0));
                    assert(removed.deep_view() =~= dv.subrange(0, i + 1 as int).filter(
                        |e: (Seq<char>, u64)| expired(e.1, now, hold_time_secs),
                    ).map_values(|e: (Seq<char>, u64)| e.0));
                    assert(dv.subrange(0, i + 1 as int).filter(
                        |e: (Seq<char>, u64)| !expired(e.1, now, hold_time_secs),
                    ) == dv.subrange(0, i as int).filter(
                        |e: (Seq<char>, u64)| !expired(e.1, now, hold_time_secs),
                    ));
                }
            } else {
                kept.push((sym, ts));
                proof {
                    reveal_with_fuel(Seq::<_>::filter, 2);
                    assert(dv.subrange(0, i + 1 as int).filter(
                        |e: (Seq<char>, u64)| !expired(e.1, now, hold_time_secs),
                    ) == dv.subrange(0, i as int).filter(
                        |e: (Seq<char>, u64)| !expired(e.1, now, hold_time_secs),
                    ).push(dv[i as int]));
                    assert(kept.deep_view() =~= kd0.push(dv[i as int]));
                    assert(kept.deep_view() =~= dv.subrange(0, i + 1 as int).filter(
                        |e: (Seq<char>, u64)| !expired(e.1, now, hold_time_secs),
                    ));
                    assert(dv.subrange(0, i + 1 as int).filter(
                        |e: (Seq<char>, u64)| expired(e.1, now, hold_time_secs),
                    ) == dv.subrange(0, i as int).filter(
                        |e: (Seq<char>, u64)| expired(e.1, now, hold_time_secs),
                    ));
                }
            }
            i += 1;
        }
        proof {
            assert(dv.subrange(0, n as int) =~= dv);
            lemma_cleanup_model(dv, now, hold_time_secs);
        }
        self.checked = kept;
        removed
    }
}

/// The entries kept by a cleanup are exactly the unexpired ones: filtering a
/// distinct-keyed entry sequence describes the cleaned map, and the dropped
/// keys are exactly the difference between the old and the cleaned domain.
pub proof fn lemma_cleanup_model(es: Seq<(Seq<char>, u64)>, now: u64, hold: u64)
    requires
        keys_distinct(es),
    ensures
        keys_distinct(es.filter(|e: (Seq<char>, u64)| !expired(e.1, now, hold))),
        map_of(es.filter(|e: (Seq<char>, u64)| !expired(e.1, now, hold)))
            == cleaned(map_of(es), now, hold),
        str_set(es.filter(|e: (Seq<char>, u64)| expired(e.1, now, hold))
            .map_values(|e: (Seq<char>, u64)| e.0))
            =~= map_of(es).dom().difference(cleaned(map_of(es), now, hold).dom()),
        cleaned(map_of(es), now, hold).dom() =~= map_of(es).dom().difference(
            str_set(es.filter(|e: (Seq<char>, u64)| expired(e.1, now, hold))
                .map_values(|e: (Seq<char>, u64)| e.0)),
        ),
        strs_distinct(es.filter(|e: (Seq<char>, u64)| expired(e.1, now, hold))
            .map_values(|e: (Seq<char>, u64)| e.0)),
    decreases es.len(),
{
    reveal_with_fuel(Seq::<_>::filter, 2);
    let keepf = |e: (Seq<char>, u64)| !expired(e.1, now, hold);
    let dropf = |e: (Seq<char>, u64)| expired(e.1, now, hold);
    let getkey = |e: (Seq<char>, u64)| e.0;
    if es.len() == 0 {
        assert(es.filter(keepf) == es);
        assert(es.filter(dropf) == es);
        assert(map_of(es) =~= Map::<Seq<char>, u64>::empty());
        assert(cleaned(map_of(es), now, hold) =~= Map::<Seq<char>, u64>::empty());
        assert(es.map_values(getkey) =~= Seq::<Seq<char>>::empty());
        assert(str_set(Seq::<Seq<char>>::empty())
            =~= map_of(es).dom().difference(cleaned(map_of(es), now, hold).dom()));
        assert(cleaned(map_of(es), now, hold).dom() =~= map_of(es).dom().difference(
            str_set(es.filter(dropf).map_values(getkey))));
    } else {
        let es1 = es.drop_last();
        let k = es.last().0;
        let v = es.last().1;
        assert(keys_distinct(es1));
        lemma_cleanup_model(es1, now, hold);
        let m1 = map_of(es1);
        assert(map_of(es) == m1.insert(k, v));
        lemma_map_of_contains(es1, k);
        if m1.contains_key(k) {
            let i = choose|i: int| 0 <= i < es1.len() && es1[i].0 == k;
            assert(es[i].0 == es[es.len() - 1].0);
            assert(false);
        }
        let kept1 = es1.filter(keepf);
        let rd1 = es1.filter(dropf).map_values(getkey);
        assert forall|x: Seq<char>| #[trigger] str_set(rd1).contains(x)
            implies m1.contains_key(x) by {}
        if !expired(v, now, hold) {
            assert(es.filter(keepf) == kept1.push(es.last()));
            assert(es.filter(dropf) == es1.filter(dropf));
            assert forall|a: int, b: int| 0 <= a < b < es.filter(keepf).len()
                implies es.filter(keepf)[a].0 != es.filter(keepf)[b].0 by {
                if b == kept1.len() {
                    assert(es.filter(keepf)[a] == kept1[a]);
                    assert(kept1.contains(kept1[a]));
                    assert(es1.contains(kept1[a])) by {
                        seq_filter_contains(es1, keepf, kept1[a]);
                    }
                    let l = choose|l: int| 0 <= l < es1.len() && es1[l] == kept1[a];
                    assert(es[l].0 != es[es.len() - 1].0);
                } else {
                    assert(es.filter(keepf)[a] == kept1[a]);
                    assert(es.filter(keepf)[b] == kept1[b]);
                }
            }
            lemma_map_of_push(kept1, k, v);
            assert(map_of(es.filter(keepf)) == map_of(kept1).insert(k, v));
            assert(cleaned(m1.insert(k, v), now, hold)
                =~= cleaned(m1, now, hold).insert(k, v));
            assert(str_set(es.filter(dropf).map_values(getkey))
                =~= map_of(es).dom().difference(cleaned(map_of(es), now, hold).dom()));
            assert(cleaned(map_of(es), now, hold).dom() =~= map_of(es).dom().difference(
                str_set(es.filter(dropf).map_values(getkey))));
        } else {
            assert(es.filter(dropf) == es1.filter(dropf).push(es.last()));
            assert(es.filter(keepf) == kept1);
            assert(es.filter(dropf).map_values(getkey)
                =~= rd1.push(k));
            lemma_str_set_push(rd1, k);
            assert(cleaned(m1.insert(k, v), now, hold) =~= cleaned(m1, now, hold));
            assert(str_set(rd1.push(k)) =~= str_set(rd1).insert(k));
            assert(str_set(rd1).insert(k)
                =~= map_of(es).dom().difference(cleaned(map_of(es), now, hold).dom()));
            assert(cleaned(map_of(es), now, hold).dom() =~= map_of(es).dom().difference(
                str_set(rd1.push(k))));
            assert(!str_set(rd1).contains(k));
            assert forall|a: int, b: int| 0 <= a < b < rd1.push(k).len()
                implies rd1.push(k)[a] != rd1.push(k)[b] by {
                if b == rd1.len() {
                    assert(rd1.push(k)[a] == rd1[a]);
                    assert(str_set(rd1).contains(rd1[a]));
                } else {
                    assert(rd1.push(k)[a] == rd1[a]);
                    assert(rd1.push(k)[b] == rd1[b]);
                }
            }
        }
    }
}

/// A sequence contains every element that its filtered form contains.
pub proof fn seq_filter_contains(s: Seq<(Seq<char>, u64)>, pred: spec_fn((Seq<char>, u64)) -> bool, x: (Seq<char>, u64))
    requires
        s.filter(pred).contains(x),
    ensures
        s.contains(x),
    decreases s.len(),
{
    reveal_with_fuel(Seq::<_>::filter, 2);
    if s.len() > 0 {
        if s.filter(pred) == s.drop_last().filter(pred) {
            seq_filter_contains(s.drop_last(), pred, x);
            let l = choose|l: int| 0 <= l < s.drop_last().len() && s.drop_last()[l] == x;
            assert(s[l] == x);
        } else {
            if x == s.last() {
                assert(s[s.len() - 1] == x);
            } else {
                let j = choose|j: int| 0 <= j < s.filter(pred).len() && s.filter(pred)[j] == x;
                assert(j < s.drop_last().filter(pred).len());
                assert(s.drop_last().filter(pred)[j] == x);
                seq_filter_contains(s.drop_last(), pred, x);
                let l = choose|l: int| 0 <= l < s.drop_last().len() && s.drop_last()[l] == x;
                assert(s[l] == x);
            }
        }
    }
}

/// Pushing a string onto a sequence adds exactly it to the string set.
pub proof fn lemma_str_set_push(ss: Seq<Seq<char>>, k: Seq<char>)
    ensures
        str_set(ss.push(k)) == str_set(ss).insert(k),
{
    assert forall|x: Seq<char>| #[trigger] str_set(ss.push(k)).contains(x)
        implies str_set(ss).insert(k).contains(x) by {
        let i = choose|i: int| 0 <= i < ss.push(k).len() && ss.push(k)[i] == x;
        if i < ss.len() {
            assert(ss[i] == x);
        }
    }
    assert forall|x: Seq<char>| #[trigger] str_set(ss).insert(k).contains(x)
        implies str_set(ss.push(k)).contains(x) by {
        if x == k {
            assert(ss.push(k)[ss.len() as int] == x);
        } else {
            let i = choose|i: int| 0 <= i < ss.len() && ss[i] == x;
            assert(ss.push(k)[i] == x);
        }
    }
    assert(str_set(ss.push(k)) =~= str_set(ss).insert(k));
}

impl Default for CheckList {
    /// An empty ledger.
    fn default() -> (r: CheckList)
        ensures
            r.wf(),
            r@ == Map::<Seq<char>, u64>::empty(),
    {
        CheckList::new()
    }
}

/// Arming invariant: after a cleanup at `now`, a symbol is armed (has no
/// entry, so it should notify) iff it had no entry before the cleanup or its
/// entry's age by `now` had reached the hold time.
pub proof fn lemma_arming(m: Map<Seq<char>, u64>, s: Seq<char>, now: u64, hold: u64)
    ensures
        !cleaned(m, now, hold).contains_key(s)
            <==> (!m.contains_key(s) || expired(m[s], now, hold)),
{
}

/// Idempotent add: recording a symbol twice leaves exactly one entry for it,
/// bearing the latest of the two timestamps; with equal timestamps the second
/// recording changes nothing.
pub proof fn lemma_add_idempotent(m: Map<Seq<char>, u64>, s: Seq<char>, t1: u64, t2: u64)
    ensures
        m.insert(s, t1).insert(s, t2) == m.insert(s, t2),
{
    assert(m.insert(s, t1).insert(s, t2) =~= m.insert(s, t2));
}

} // verus!
