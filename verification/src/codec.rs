//! The ledger's persistence format: one line per entry, the symbol in
//! quotes, an equals sign, and the epoch second in decimal. Quote and
//! backslash characters inside a symbol are escaped with a backslash, so
//! every symbol round-trips. A malformed text parses to the empty ledger,
//! never to an error.

use vstd::prelude::*;
use crate::ledger::{CheckList, map_of};
use crate::text::{
    all_digits, dec_digits, dec_value, find_char, find_char_exec, is_digit, lemma_dec_digits,
    lemma_find_char, lemma_find_char_at, parse_u64_digits,
};

verus! {

/// A key character as it is written: quote and backslash get a backslash
/// before them, every other character stands as it is.
pub open spec fn esc_char(c: char) -> Seq<char> {
    if c == '"' || c == '\\' {
        seq!['\\', c]
    } else {
        seq![c]
    }
}

/// A key as it is written between the quotes.
pub open spec fn esc_key(k: Seq<char>) -> Seq<char>
    decreases k.len(),
{
    if k.len() == 0 {
        Seq::empty()
    } else {
        esc_char(k.first()) + esc_key(k.drop_first())
    }
}

/// The index of the quote that closes the key: the first quote not behind
/// a backslash. A backslash always escapes the character after it; -1 when
/// no closing quote exists.
pub open spec fn close_quote(s: Seq<char>) -> int
    decreases s.len(),
{
    if s.len() == 0 {
        -1
    } else if s[0] == '"' {
        0
    } else if s[0] == '\\' {
        if s.len() < 2 {
            -1
        } else if close_quote(s.subrange(2, s.len() as int)) == -1 {
            -1
        } else {
            close_quote(s.subrange(2, s.len() as int)) + 2
        }
    } else if close_quote(s.drop_first()) == -1 {
        -1
    } else {
        close_quote(s.drop_first()) + 1
    }
}

/// The key text an escaped form denotes: a backslash yields the character
/// after it, every other character yields itself.
pub open spec fn unesc(s: Seq<char>) -> Seq<char>
    decreases s.len(),
{
    if s.len() == 0 {
        Seq::empty()
    } else if s[0] == '\\' && s.len() >= 2 {
        seq![s[1]] + unesc(s.subrange(2, s.len() as int))
    } else {
        seq![s[0]] + unesc(s.drop_first())
    }
}

/// One serialized ledger line.
pub open spec fn ser_entry(k: Seq<char>, v: u64) -> Seq<char> {
    seq!['"'] + esc_key(k) + seq!['"', ' ', '=', ' '] + dec_digits(v as int) + seq!['\n']
}

/// The serialized ledger: its lines in entry order.
pub open spec fn ser_entries(es: Seq<(Seq<char>, u64)>) -> Seq<char>
    decreases es.len(),
{
    if es.len() == 0 {
        Seq::empty()
    } else {
        ser_entry(es.first().0, es.first().1) + ser_entries(es.drop_first())
    }
}

/// The entries a ledger text describes, or `None` when it is malformed.
pub open spec fn parse_entries(s: Seq<char>) -> Option<Seq<(Seq<char>, u64)>>
    decreases s.len(),
{
    if s.len() == 0 {
        Some(Seq::empty())
    } else if s[0] != '"' {
        None
    } else {
        let rest = s.drop_first();
        let q = close_quote(rest);
        if !(0 <= q < rest.len()) {
            None
        } else {
            let key = unesc(rest.subrange(0, q));
            let after = rest.subrange(q + 1, rest.len() as int);
            if after.len() < 3 || after[0] != ' ' || after[1] != '=' || after[2] != ' ' {
                None
            } else {
                let vd = after.subrange(3, after.len() as int);
                let nl = find_char(vd, '\n');
                if !(0 <= nl < vd.len()) {
                    None
                } else {
                    let ds = vd.subrange(0, nl);
                    if ds.len() >= 1 && all_digits(ds)
                        && dec_value(ds) <= 0xffff_ffff_ffff_ffffu64 {
                        let tail = vd.subrange(nl + 1, vd.len() as int);
                        match parse_entries(tail) {
                            Some(es) => Some(seq![(key, dec_value(ds) as u64)] + es),
                            None => None,
                        }
                    } else {
                        None
                    }
                }
            }
        }
    }
}

/// The mapping a ledger text describes; a malformed text describes the
/// empty mapping.
pub open spec fn parse_map(s: Seq<char>) -> Map<Seq<char>, u64> {
    match parse_entries(s) {
        Some(es) => map_of(es),
        None => Map::empty(),
    }
}

/// A found closing quote is in range and is a quote.
pub proof fn lemma_close_quote_bounds(s: Seq<char>)
    ensures
        close_quote(s) == -1 || (0 <= close_quote(s) < s.len() && s[close_quote(s)] == '"'),
    decreases s.len(),
{
    if s.len() == 0 {
    } else if s[0] == '"' {
    } else if s[0] == '\\' {
        if s.len() >= 2 {
            lemma_close_quote_bounds(s.subrange(2, s.len() as int));
            if close_quote(s.subrange(2, s.len() as int)) != -1 {
                assert(s[close_quote(s)] == s.subrange(2, s.len() as int)[close_quote(s) - 2]);
            }
        }
    } else {
        lemma_close_quote_bounds(s.drop_first());
        if close_quote(s.drop_first()) != -1 {
            assert(s[close_quote(s)] == s.drop_first()[close_quote(s) - 1]);
        }
    }
}

/// Escaping one more character appends its escaped form.
pub proof fn lemma_esc_key_push(k: Seq<char>, c: char)
    ensures
        esc_key(k.push(c)) == esc_key(k) + esc_char(c),
    decreases k.len(),
{
    if k.len() == 0 {
        assert(k.push(c).first() == c);
        assert(k.push(c).drop_first() =~= Seq::<char>::empty());
        assert(esc_key(Seq::<char>::empty()) == Seq::<char>::empty());
        assert(k =~= Seq::<char>::empty());
        assert(esc_key(k.push(c)) == esc_char(c) + esc_key(Seq::<char>::empty()));
        assert(esc_key(k.push(c)) =~= esc_key(k) + esc_char(c));
    } else {
        lemma_esc_key_push(k.drop_first(), c);
        assert(k.push(c).first() == k.first());
        assert(k.push(c).drop_first() =~= k.drop_first().push(c));
        assert(esc_key(k.push(c)) =~= esc_key(k) + esc_char(c));
    }
}

/// In an escaped key followed by a quote, that quote is the closing one.
pub proof fn lemma_close_quote_esc(k: Seq<char>, suffix: Seq<char>)
    ensures
        close_quote(esc_key(k) + seq!['"'] + suffix) == esc_key(k).len(),
    decreases k.len(),
{
    let s = esc_key(k) + seq!['"'] + suffix;
    if k.len() == 0 {
        assert(esc_key(k) =~= Seq::<char>::empty());
        assert(s[0] == '"');
    } else {
        let c = k.first();
        let k1 = k.drop_first();
        lemma_close_quote_esc(k1, suffix);
        let s1 = esc_key(k1) + seq!['"'] + suffix;
        if c == '"' || c == '\\' {
            assert(esc_key(k) == seq!['\\', c] + esc_key(k1));
            assert(s[0] == '\\');
            assert(s.len() >= 2);
            assert(s.subrange(2, s.len() as int) =~= s1);
            assert(close_quote(s) == esc_key(k1).len() + 2);
            assert(esc_key(k).len() == esc_key(k1).len() + 2);
        } else {
            assert(esc_key(k) == seq![c] + esc_key(k1));
            assert(s[0] == c);
            assert(s.drop_first() =~= s1);
            assert(close_quote(s) == esc_key(k1).len() + 1);
            assert(esc_key(k).len() == esc_key(k1).len() + 1);
        }
    }
}

/// Unescaping inverts escaping on every key.
pub proof fn lemma_unesc_esc(k: Seq<char>)
    ensures
        unesc(esc_key(k)) == k,
    decreases k.len(),
{
    if k.len() == 0 {
        assert(unesc(esc_key(k)) =~= k);
    } else {
        let c = k.first();
        let k1 = k.drop_first();
        lemma_unesc_esc(k1);
        let e = esc_key(k);
        if c == '"' || c == '\\' {
            assert(e == seq!['\\', c] + esc_key(k1));
            assert(e[0] == '\\' && e.len() >= 2);
            assert(e[1] == c);
            assert(e.subrange(2, e.len() as int) =~= esc_key(k1));
            assert(unesc(e) == seq![c] + k1);
            assert(seq![c] + k1 =~= k);
        } else {
            assert(e == seq![c] + esc_key(k1));
            assert(e[0] == c);
            assert(e.drop_first() =~= esc_key(k1));
            assert(unesc(e) == seq![c] + k1);
            assert(seq![c] + k1 =~= k);
        }
    }
}

/// Appends the escaped form of a key.
fn push_escaped(out: &mut String, k: &str)
    ensures
        final(out)@ == old(out)@ + esc_key(k@),
{
    let n = k.unicode_len();
    let mut i: usize = 0;
    proof {
        assert(k@.subrange(0, 0) =~= Seq::<char>::empty());
        assert(esc_key(k@.subrange(0, 0)) =~= Seq::<char>::empty());
        assert(out@ =~= old(out)@ + esc_key(k@.subrange(0, 0)));
    }
    while i < n
        invariant
            i <= n,
            n == k@.len(),
            out@ == old(out)@ + esc_key(k@.subrange(0, i as int)),
        decreases n - i,
    {
        let ghost o0 = out@;
        let c = k.get_char(i);
        if c == '"' {
            out.append("\\\"");
            proof {
                reveal_strlit("\\\"");
                assert(("\\\"")@ =~= seq!['\\', '"']);
            }
        } else if c == '\\' {
            out.append("\\\\");
            proof {
                reveal_strlit("\\\\");
                assert(("\\\\")@ =~= seq!['\\', '\\']);
            }
        } else {
            out.append(k.substring_char(i, i + 1));
        }
        proof {
            assert(out@ =~= o0 + esc_char(k@[i as int]));
            lemma_esc_key_push(k@.subrange(0, i as int), k@[i as int]);
            assert(k@.subrange(0, i + 1 as int) =~= k@.subrange(0, i as int).push(k@[i as int]));
            assert(out@ =~= old(out)@ + esc_key(k@.subrange(0, i + 1 as int)));
        }
        i += 1;
    }
    proof {
        assert(k@.subrange(0, n as int) =~= k@);
    }
}

/// Serializes the ledger, entry for entry, in storage order.
pub fn to_toml(list: &CheckList) -> (r: String)
    ensures
        r@ == ser_entries(list.entries()),
{
    let ghost dv = list.entries();
    let mut out = String::new();
    let n = list.len();
    let mut i: usize = 0;
    proof {
        assert(dv.subrange(0, n as int) =~= dv);
        assert(Seq::<char>::empty() + ser_entries(dv) =~= ser_entries(dv));
    }
    while i < n
        invariant
            i <= n,
            n == dv.len(),
            dv == list.entries(),
            out@ + ser_entries(dv.subrange(i as int, n as int)) == ser_entries(dv),
        decreases n - i,
    {
        let ghost o0 = out@;
        let e = list.entry(i);
        out.append("\"");
        push_escaped(&mut out, e.0.as_str());
        out.append("\" = ");
        crate::text::push_u64(&mut out, e.1);
        out.append("\n");
        proof {
            reveal_strlit("\"");
            reveal_strlit("\" = ");
            reveal_strlit("\n");
            assert(("\" = ")@ =~= seq!['"', ' ', '=', ' ']);
            assert(("\"")@ =~= seq!['"']);
            assert(("\n")@ =~= seq!['\n']);
            assert(out@ =~= o0 + ser_entry(dv[i as int].0, dv[i as int].1));
            let suf = dv.subrange(i as int, n as int);
            assert(suf.first() == dv[i as int]);
            assert(suf.drop_first() =~= dv.subrange(i + 1 as int, n as int));
            assert(ser_entries(suf)
                == ser_entry(dv[i as int].0, dv[i as int].1)
                    + ser_entries(dv.subrange(i + 1 as int, n as int)));
            assert(out@ + ser_entries(dv.subrange(i + 1 as int, n as int))
                =~= o0 + ser_entries(suf));
        }
        i += 1;
    }
    proof {
        assert(dv.subrange(n as int, n as int) =~= Seq::<(Seq<char>, u64)>::empty());
        assert(ser_entries(dv.subrange(n as int, n as int)) =~= Seq::<char>::empty());
        assert(out@ =~= ser_entries(dv));
    }
    out
}

/// The index of the closing quote, if one exists.
fn close_quote_exec(s: &str) -> (r: Option<usize>)
    ensures
        r is Some ==> close_quote(s@) == r.unwrap() as int,
        r is None ==> close_quote(s@) == -1,
    decreases s@.len(),
{
    let n = s.unicode_len();
    if n == 0 {
        return None;
    }
    let c0 = s.get_char(0);
    if c0 == '"' {
        return Some(0);
    }
    if c0 == '\\' {
        if n < 2 {
            return None;
        }
        let rest = s.substring_char(2, n);
        proof {
            assert(rest@ =~= s@.subrange(2, s@.len() as int));
        }
        match close_quote_exec(rest) {
            None => None,
            Some(r) => {
                proof {
                    lemma_close_quote_bounds(rest@);
                }
                Some(r + 2)
            },
        }
    } else {
        let rest = s.substring_char(1, n);
        proof {
            assert(rest@ =~= s@.drop_first());
        }
        match close_quote_exec(rest) {
            None => None,
            Some(r) => {
                proof {
                    lemma_close_quote_bounds(rest@);
                }
                Some(r + 1)
            },
        }
    }
}

/// Appends the key text that an escaped form denotes.
fn unesc_into(out: &mut String, s: &str)
    ensures
        final(out)@ == old(out)@ + unesc(s@),
    decreases s@.len(),
{
    let n = s.unicode_len();
    if n == 0 {
        proof {
            assert(out@ =~= old(out)@ + unesc(s@));
        }
        return;
    }
    let c0 = s.get_char(0);
    if c0 == '\\' && n >= 2 {
        out.append(s.substring_char(1, 2));
        let rest = s.substring_char(2, n);
        proof {
            assert(rest@ =~= s@.subrange(2, s@.len() as int));
            assert(out@ =~= old(out)@ + seq![s@[1]]);
        }
        unesc_into(out, rest);
        proof {
            assert(out@ =~= old(out)@ + unesc(s@));
        }
    } else {
        out.append(s.substring_char(0, 1));
        let rest = s.substring_char(1, n);
        proof {
            assert(rest@ =~= s@.drop_first());
            assert(out@ =~= old(out)@ + seq![s@[0]]);
        }
        unesc_into(out, rest);
        proof {
            assert(out@ =~= old(out)@ + unesc(s@));
        }
    }
}

/// Parses a ledger text into its entries; `None` exactly on malformed text.
fn parse_entries_exec(s: &str) -> (r: Option<Vec<(String, u64)>>)
    ensures
        r is Some <==> parse_entries(s@) is Some,
        r is Some ==> r.unwrap().deep_view() == parse_entries(s@).unwrap(),
    decreases s@.len(),
{
    let n = s.unicode_len();
    if n == 0 {
        let v: Vec<(String, u64)> = Vec::new();
        proof {
            assert(v.deep_view() =~= Seq::<(Seq<char>, u64)>::empty());
        }
        return Some(v);
    }
    if s.get_char(0) != '"' {
        return None;
    }
    let rest = s.substring_char(1, n);
    proof {
        assert(rest@ =~= s@.drop_first());
    }
    let q = match close_quote_exec(rest) {
        None => {
            return None;
        },
        Some(q) => q,
    };
    proof {
        lemma_close_quote_bounds(rest@);
    }
    let rest_len = rest.unicode_len();
    let ks = rest.substring_char(0, q);
    let mut key = String::new();
    unesc_into(&mut key, ks);
    proof {
        assert(ks@ =~= rest@.subrange(0, q as int));
        assert(key@ == unesc(rest@.subrange(0, q as int)));
    }
    if rest_len - q - 1 < 3 {
        proof {
            let after = rest@.subrange(q + 1, rest@.len() as int);
            assert(after.len() < 3);
        }
        return None;
    }
    let ghost after = rest@.subrange(q + 1, rest@.len() as int);
    proof {
        assert(after[0] == rest@[q + 1]);
        assert(after[1] == rest@[q + 2]);
        assert(after[2] == rest@[q + 3]);
    }
    if !(rest.get_char(q + 1) == ' ' && rest.get_char(q + 2) == '=' && rest.get_char(q + 3) == ' ') {
        return None;
    }
    let vd = rest.substring_char(q + 4, rest_len);
    proof {
        assert(vd@ =~= after.subrange(3, after.len() as int));
    }
    let nl = match find_char_exec(vd, '\n') {
        None => {
            return None;
        },
        Some(nl) => nl,
    };
    proof {
        lemma_find_char(vd@, '\n');
    }
    let vd_len = vd.unicode_len();
    let ds = vd.substring_char(0, nl);
    let value = match parse_u64_digits(ds) {
        None => {
            return None;
        },
        Some(v) => v,
    };
    let tail = vd.substring_char(nl + 1, vd_len);
    proof {
        assert(tail@ =~= vd@.subrange(nl + 1, vd@.len() as int));
        assert(tail@.len() < s@.len());
    }
    let mut rest_entries = match parse_entries_exec(tail) {
        None => {
            return None;
        },
        Some(es) => es,
    };
    let mut out: Vec<(String, u64)> = Vec::new();
    out.push((key, value));
    out.append(&mut rest_entries);
    proof {
        let pe = parse_entries(s@).unwrap();
        assert(out.deep_view() =~= seq![(unesc(rest@.subrange(0, q as int)), value)]
            + pe.subrange(1, pe.len() as int));
        assert(pe =~= seq![(unesc(rest@.subrange(0, q as int)), value)]
            + pe.subrange(1, pe.len() as int));
        assert(out.deep_view() == pe);
    }
    Some(out)
}

/// Parses a ledger text; a malformed text yields the empty ledger.
pub fn from_toml(text: &str) -> (r: CheckList)
    ensures
        r.wf(),
        r@ == parse_map(text@),
{
    let entries = match parse_entries_exec(text) {
        None => {
            let r = CheckList::new();
            return r;
        },
        Some(es) => es,
    };
    let ghost pe = parse_entries(text@).unwrap();
    let mut list = CheckList::new();
    let n = entries.len();
    let mut i: usize = 0;
    while i < n
        invariant
            i <= n,
            n == entries.len(),
            entries.deep_view() == pe,
            pe.len() == n,
            list.wf(),
            list@ == map_of(pe.subrange(0, i as int)),
        decreases n - i,
    {
        let e = (entries[i].0.clone(), entries[i].1);
        proof {
            assert(pe[i as int] == (entries@[i as int].0@, entries@[i as int].1));
            assert(pe.subrange(0, i + 1 as int).drop_last() =~= pe.subrange(0, i as int));
            assert(pe.subrange(0, i + 1 as int).last() == pe[i as int]);
        }
        list.add(e.0, e.1);
        i += 1;
    }
    proof {
        assert(pe.subrange(0, n as int) =~= pe);
    }
    list
}

/// Parsing a serialized entry sequence yields exactly that sequence,
/// whatever characters the symbols hold.
#[verifier::rlimit(100)]
pub proof fn lemma_parse_ser(es: Seq<(Seq<char>, u64)>)
    ensures
        parse_entries(ser_entries(es)) == Some(es),
    decreases es.len(),
{
    if es.len() == 0 {
        assert(ser_entries(es) == Seq::<char>::empty());
        assert(Seq::<(Seq<char>, u64)>::empty() =~= es);
    } else {
        let k = es.first().0;
        let v = es.first().1;
        lemma_dec_digits(v as int);
        let dd = dec_digits(v as int);
        let s = ser_entries(es);
        let e0 = ser_entry(k, v);
        let srest = ser_entries(es.drop_first());
        assert(s == e0 + srest);
        assert(s[0] == '"');
        let rest = s.drop_first();
        let suffix = seq![' ', '=', ' '] + dd + seq!['\n'] + srest;
        assert(rest =~= esc_key(k) + seq!['"'] + suffix);
        lemma_close_quote_esc(k, suffix);
        assert(close_quote(rest) == esc_key(k).len());
        let q = esc_key(k).len() as int;
        assert(rest.subrange(0, q) =~= esc_key(k));
        lemma_unesc_esc(k);
        assert(unesc(rest.subrange(0, q)) == k);
        let after = rest.subrange(q + 1, rest.len() as int);
        assert(after =~= suffix);
        assert(after.len() >= 3 && after[0] == ' ' && after[1] == '=' && after[2] == ' ');
        let vd = after.subrange(3, after.len() as int);
        assert(vd =~= dd + seq!['\n'] + srest);
        assert(vd[dd.len() as int] == '\n');
        assert forall|j: int| 0 <= j < dd.len() implies vd[j] != '\n' by {
            assert(vd[j] == dd[j]);
            assert(is_digit(dd[j]));
        }
        lemma_find_char_at(vd, '\n', dd.len() as int);
        let nl = dd.len() as int;
        let ds = vd.subrange(0, nl);
        assert(ds =~= dd);
        assert(ds.len() >= 1 && all_digits(ds) && dec_value(ds) == v);
        let tail = vd.subrange(nl + 1, vd.len() as int);
        assert(tail =~= srest);
        lemma_parse_ser(es.drop_first());
        assert(parse_entries(tail) == Some(es.drop_first()));
        assert(parse_entries(s) == Some(seq![(k, v)] + es.drop_first()));
        assert(seq![(k, v)] + es.drop_first() =~= es);
    }
}

/// Round-trip persistence: saving a ledger and loading it back describes
/// the same mapping, whatever the ledger state.
pub proof fn lemma_round_trip(es: Seq<(Seq<char>, u64)>)
    ensures
        parse_map(ser_entries(es)) == map_of(es),
{
    lemma_parse_ser(es);
}

} // verus!
