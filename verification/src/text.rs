//! Small verified helpers on strings.

use vstd::prelude::*;

verus! {

/// Equality of two string slices, decided character by character.
pub fn str_eq(a: &str, b: &str) -> (r: bool)
    ensures
        r == (a@ == b@),
{
    let an = a.unicode_len();
    let bn = b.unicode_len();
    if an != bn {
        proof {
            assert(a@ != b@) by {
                if a@ == b@ {
                    assert(a@.len() == b@.len());
                }
            }
        }
        return false;
    }
    let mut i: usize = 0;
    while i < an
        invariant
            i <= an,
            an == a@.len(),
            an == b@.len(),
            forall|j: int| 0 <= j < i ==> a@[j] == b@[j],
        decreases an - i,
    {
        if a.get_char(i) != b.get_char(i) {
            return false;
        }
        i += 1;
    }
    proof {
        assert(a@ =~= b@);
    }
    true
}

/// Whether some element of `v` has exactly the characters of `s`.
pub open spec fn seq_has_str(vs: Seq<Seq<char>>, s: Seq<char>) -> bool {
    exists|i: int| 0 <= i < vs.len() && vs[i] == s
}

/// Linear search for a string among a vector of strings.
pub fn contains_str(v: &Vec<String>, s: &str) -> (r: bool)
    ensures
        r == seq_has_str(v.deep_view(), s@),
{
    let n = v.len();
    let mut i: usize = 0;
    while i < n
        invariant
            i <= n,
            n == v.len(),
            v.deep_view().len() == v@.len(),
            forall|j: int| 0 <= j < i ==> v.deep_view()[j] != s@,
        decreases n - i,
    {
        proof {
            assert(v.deep_view()[i as int] == v@[i as int]@);
        }
        if str_eq(v[i].as_str(), s) {
            return true;
        }
        i += 1;
    }
    false
}

/// A decimal digit character.
pub open spec fn is_digit(c: char) -> bool {
    48 <= c as u32 <= 57
}

/// The numeric value of a digit character.
pub open spec fn digit_val(c: char) -> int {
    c as u32 - 48
}

/// Every character of `s` is a decimal digit.
pub open spec fn all_digits(s: Seq<char>) -> bool {
    forall|i: int| 0 <= i < s.len() ==> is_digit(#[trigger] s[i])
}

/// The digit character for a value below ten.
pub open spec fn digit_char(d: int) -> char {
    if d == 0 { '0' } else if d == 1 { '1' } else if d == 2 { '2' } else if d == 3 { '3' }
    else if d == 4 { '4' } else if d == 5 { '5' } else if d == 6 { '6' } else if d == 7 { '7' }
    else if d == 8 { '8' } else { '9' }
}

/// The decimal digit string of a natural number, most significant first.
pub open spec fn dec_digits(n: int) -> Seq<char>
    decreases n,
{
    if n < 10 {
        seq![digit_char(n)]
    } else {
        dec_digits(n / 10).push(digit_char(n % 10))
    }
}

/// The numeric value of a digit string.
pub open spec fn dec_value(s: Seq<char>) -> int
    decreases s.len(),
{
    if s.len() == 0 {
        0
    } else {
        dec_value(s.drop_last()) * 10 + digit_val(s.last())
    }
}

/// The digit string of `n` consists of digits, is non-empty, and reads back
/// to `n`.
pub proof fn lemma_dec_digits(n: int)
    requires
        n >= 0,
    ensures
        all_digits(dec_digits(n)),
        dec_digits(n).len() >= 1,
        dec_value(dec_digits(n)) == n,
    decreases n,
{
    if n < 10 {
        let s1 = seq![digit_char(n)];
        assert(dec_digits(n) == s1);
        assert(s1.drop_last() =~= Seq::<char>::empty());
        assert(dec_value(s1.drop_last()) == 0);
        assert(dec_value(s1) == dec_value(s1.drop_last()) * 10 + digit_val(s1.last()));
    } else {
        lemma_dec_digits(n / 10);
        let d = dec_digits(n / 10);
        assert(dec_digits(n) == d.push(digit_char(n % 10)));
        assert(d.push(digit_char(n % 10)).drop_last() =~= d);
        assert(dec_value(dec_digits(n)) == dec_value(d) * 10 + digit_val(digit_char(n % 10)));
        assert forall|i: int| 0 <= i < dec_digits(n).len()
            implies is_digit(#[trigger] dec_digits(n)[i]) by {
            if i < d.len() {
                assert(dec_digits(n)[i] == d[i]);
            }
        }
    }
}

/// A digit string's value never shrinks as the string grows to the right,
/// and is never negative.
pub proof fn lemma_dec_value_mono(s: Seq<char>, i: int)
    requires
        all_digits(s),
        0 <= i <= s.len(),
    ensures
        dec_value(s) >= dec_value(s.subrange(0, i)) >= 0,
    decreases s.len() - i,
{
    if i == s.len() {
        assert(s.subrange(0, i) =~= s);
        lemma_dec_value_nonneg(s);
    } else {
        lemma_dec_value_mono(s, i + 1);
        let p1 = s.subrange(0, i + 1);
        assert(p1.drop_last() =~= s.subrange(0, i));
        assert(is_digit(s[i]));
        assert(p1.last() == s[i]);
        lemma_dec_value_nonneg(s.subrange(0, i));
        assert(dec_value(p1) == dec_value(s.subrange(0, i)) * 10 + digit_val(s[i]));
    }
}

/// A digit string's value is never negative.
pub proof fn lemma_dec_value_nonneg(s: Seq<char>)
    requires
        all_digits(s),
    ensures
        dec_value(s) >= 0,
    decreases s.len(),
{
    if s.len() > 0 {
        assert(all_digits(s.drop_last())) by {
            assert forall|i: int| 0 <= i < s.drop_last().len()
                implies is_digit(#[trigger] s.drop_last()[i]) by {
                assert(s.drop_last()[i] == s[i]);
            }
        }
        lemma_dec_value_nonneg(s.drop_last());
        assert(is_digit(s.last()));
    }
}

/// The single-character string for a digit value.
pub fn digit_str(d: u8) -> (r: &'static str)
    requires
        d < 10,
    ensures
        r@ == seq![digit_char(d as int)],
{
    proof {
        reveal_strlit("0");
        reveal_strlit("1");
        reveal_strlit("2");
        reveal_strlit("3");
        reveal_strlit("4");
        reveal_strlit("5");
        reveal_strlit("6");
        reveal_strlit("7");
        reveal_strlit("8");
        reveal_strlit("9");
    }
    let r = match d {
        0 => "0",
        1 => "1",
        2 => "2",
        3 => "3",
        4 => "4",
        5 => "5",
        6 => "6",
        7 => "7",
        8 => "8",
        _ => "9",
    };
    proof {
        assert(r@ =~= seq![digit_char(d as int)]);
    }
    r
}

/// Appends the decimal digit string of `n` to `out`.
pub fn push_u64(out: &mut String, n: u64)
    ensures
        final(out)@ == old(out)@ + dec_digits(n as int),
    decreases n,
{
    if n >= 10 {
        push_u64(out, n / 10);
        let ghost mid = out@;
        out.append(digit_str((n % 10) as u8));
        proof {
            assert(out@ =~= old(out)@ + dec_digits(n as int));
        }
    } else {
        out.append(digit_str(n as u8));
        proof {
            assert(out@ =~= old(out)@ + dec_digits(n as int));
        }
    }
}

/// The index of the first occurrence of `c` in `s`, or -1 if absent.
pub open spec fn find_char(s: Seq<char>, c: char) -> int
    decreases s.len(),
{
    if s.len() == 0 {
        -1
    } else if s[0] == c {
        0
    } else if find_char(s.drop_first(), c) == -1 {
        -1
    } else {
        find_char(s.drop_first(), c) + 1
    }
}

/// What `find_char` finds: the first index holding `c`, or -1 when no index
/// holds `c`.
pub proof fn lemma_find_char(s: Seq<char>, c: char)
    ensures
        find_char(s, c) == -1 ==> forall|i: int| 0 <= i < s.len() ==> s[i] != c,
        find_char(s, c) != -1 ==> {
            &&& 0 <= find_char(s, c) < s.len()
            &&& s[find_char(s, c)] == c
            &&& forall|i: int| 0 <= i < find_char(s, c) ==> s[i] != c
        },
    decreases s.len(),
{
    if s.len() > 0 && s[0] != c {
        lemma_find_char(s.drop_first(), c);
        let r = find_char(s.drop_first(), c);
        if r == -1 {
            assert forall|i: int| 0 <= i < s.len() implies s[i] != c by {
                if i > 0 {
                    assert(s.drop_first()[i - 1] == s[i]);
                }
            }
        } else {
            assert(s[r + 1] == s.drop_first()[r]);
            assert forall|i: int| 0 <= i < r + 1 implies s[i] != c by {
                if i > 0 {
                    assert(s.drop_first()[i - 1] == s[i]);
                }
            }
        }
    }
}

/// Parses a non-empty all-digit string into a `u64`; `None` exactly on a
/// malformed string or on overflow.
pub fn parse_u64_digits(ds: &str) -> (r: Option<u64>)
    ensures
        r is Some <==> (ds@.len() >= 1 && all_digits(ds@)
            && dec_value(ds@) <= 0xffff_ffff_ffff_ffffu64),
        r is Some ==> r.unwrap() == dec_value(ds@),
{
    let n = ds.unicode_len();
    if n == 0 {
        return None;
    }
    let mut acc: u64 = 0;
    let mut i: usize = 0;
    while i < n
        invariant
            i <= n,
            n == ds@.len(),
            all_digits(ds@.subrange(0, i as int)),
            acc == dec_value(ds@.subrange(0, i as int)),
        decreases n - i,
    {
        let c = ds.get_char(i);
        let u = c as u32;
        if u < 48 || u > 57 {
            proof {
                assert(!is_digit(ds@[i as int]));
            }
            return None;
        }
        let d = (u - 48) as u64;
        proof {
            assert(ds@.subrange(0, i + 1 as int).drop_last() =~= ds@.subrange(0, i as int));
            assert(ds@.subrange(0, i + 1 as int).last() == ds@[i as int]);
            assert forall|j: int| 0 <= j < i + 1
                implies is_digit(#[trigger] ds@.subrange(0, i + 1 as int)[j]) by {
                assert(ds@.subrange(0, i + 1 as int)[j] == ds@[j]);
            }
        }
        if acc > (0xffff_ffff_ffff_ffffu64 - d) / 10 {
            proof {
                assert(dec_value(ds@.subrange(0, i + 1 as int))
                    > 0xffff_ffff_ffff_ffffu64);
                if all_digits(ds@) {
                    lemma_dec_value_mono(ds@, i + 1);
                }
            }
            return None;
        }
        acc = acc * 10 + d;
        i += 1;
    }
    proof {
        assert(ds@.subrange(0, n as int) =~= ds@);
    }
    Some(acc)
}

/// The first index such that `find_char` names it: the index holds `c` and
/// nothing before it does.
pub proof fn lemma_find_char_at(s: Seq<char>, c: char, i: int)
    requires
        0 <= i < s.len(),
        s[i] == c,
        forall|j: int| 0 <= j < i ==> s[j] != c,
    ensures
        find_char(s, c) == i,
{
    lemma_find_char(s, c);
    if find_char(s, c) == -1 {
        assert(s[i] != c);
    }
    let r = find_char(s, c);
    if r < i {
        assert(s[r] != c);
    }
    if r > i {
        assert(s[i] != c);
    }
}

/// The first index of `c` in `s`, if any.
pub fn find_char_exec(s: &str, c: char) -> (r: Option<usize>)
    ensures
        r is Some ==> find_char(s@, c) == r.unwrap() as int,
        r is None ==> find_char(s@, c) == -1,
{
    let n = s.unicode_len();
    let mut i: usize = 0;
    while i < n
        invariant
            i <= n,
            n == s@.len(),
            forall|j: int| 0 <= j < i ==> s@[j] != c,
        decreases n - i,
    {
        if s.get_char(i) == c {
            proof {
                lemma_find_char(s@, c);
            }
            return Some(i);
        }
        i += 1;
    }
    proof {
        lemma_find_char(s@, c);
    }
    None
}

/// Pushing a string extends the membership predicate by exactly it.
pub proof fn lemma_seq_has_str_push(ss: Seq<Seq<char>>, x: Seq<char>)
    ensures
        forall|k: Seq<char>| #![trigger seq_has_str(ss.push(x), k)]
            seq_has_str(ss.push(x), k) <==> (seq_has_str(ss, k) || k == x),
{
    assert forall|k: Seq<char>| #[trigger] seq_has_str(ss.push(x), k)
        implies (seq_has_str(ss, k) || k == x) by {
        let i = choose|i: int| 0 <= i < ss.push(x).len() && ss.push(x)[i] == k;
        if i < ss.len() {
            assert(ss[i] == k);
        }
    }
    assert forall|k: Seq<char>| seq_has_str(ss, k) || k == x
        implies #[trigger] seq_has_str(ss.push(x), k) by {
        if seq_has_str(ss, k) {
            let i = choose|i: int| 0 <= i < ss.len() && ss[i] == k;
            assert(ss.push(x)[i] == k);
        } else {
            assert(ss.push(x)[ss.len() as int] == k);
        }
    }
}

} // verus!
