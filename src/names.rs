//! The canonical file name of a mail record and the grammar that recognises
//! such names in a store directory.
use vstd::prelude::*;
use crate::decimal::{
    all_digits,
    digits_of,
    is_digit,
    lemma_digits_injective,
    lemma_digits_shape,
    lemma_signed_injective,
    lemma_signed_shape,
    signed_text,
};

verus! {

pub open spec fn name_prefix() -> Seq<char> {
    seq!['t', 'r', 'a', 'p', 'm', 'a', 'i', 'l', '_']
}

pub open spec fn name_suffix() -> Seq<char> {
    seq!['.', 'j', 's', 'o', 'n']
}

pub open spec fn sep() -> Seq<char> {
    seq!['_']
}

/// `trapmail_<timestamp>_<parent pid>_<pid>.json`, all fields in decimal.
pub open spec fn mail_file_name(timestamp_us: nat, ppid: int, pid: int) -> Seq<char> {
    name_prefix() + digits_of(timestamp_us) + sep() + signed_text(ppid) + sep() + signed_text(pid)
        + name_suffix()
}

/// The middle of a name splits at `i` and `j` into three non-empty digit runs.
pub open spec fn fields_at(m: Seq<char>, i: int, j: int) -> bool {
    &&& 0 < i
    &&& i + 1 < j
    &&& j + 1 < m.len()
    &&& m[i] == '_'
    &&& m[j] == '_'
    &&& all_digits(m.subrange(0, i))
    &&& all_digits(m.subrange(i + 1, j))
    &&& all_digits(m.subrange(j + 1, m.len() as int))
}

/// The grammar `trapmail_<digits>_<digits>_<digits>.json`, matched whole.
pub open spec fn is_mail_name(s: Seq<char>) -> bool {
    &&& s.len() >= 14
    &&& s.subrange(0, 9) == name_prefix()
    &&& s.subrange(s.len() - 5, s.len() as int) == name_suffix()
    &&& exists|i: int, j: int| #[trigger] fields_at(s.subrange(9, s.len() - 5), i, j)
}

pub open spec fn no_sep(x: Seq<char>) -> bool {
    forall|i: int| 0 <= i < x.len() ==> #[trigger] x[i] != '_'
}

proof fn lemma_split_at_sep(x1: Seq<char>, r1: Seq<char>, x2: Seq<char>, r2: Seq<char>)
    requires
        x1 + sep() + r1 == x2 + sep() + r2,
        no_sep(x1),
        no_sep(x2),
    ensures
        x1 == x2,
        r1 == r2,
{
    let a = x1 + sep() + r1;
    let b = x2 + sep() + r2;
    if x1.len() < x2.len() {
        assert(a[x1.len() as int] == '_');
        assert(b[x1.len() as int] == x2[x1.len() as int]);
    } else if x2.len() < x1.len() {
        assert(b[x2.len() as int] == '_');
        assert(a[x2.len() as int] == x1[x2.len() as int]);
    }
    assert(x1 =~= a.subrange(0, x1.len() as int));
    assert(x2 =~= b.subrange(0, x2.len() as int));
    assert(r1 =~= a.subrange(x1.len() as int + 1, a.len() as int));
    assert(r2 =~= b.subrange(x2.len() as int + 1, b.len() as int));
}

proof fn lemma_signed_no_sep(v: int)
    ensures
        no_sep(signed_text(v)),
{
    lemma_signed_shape(v);
    assert forall|i: int| 0 <= i < signed_text(v).len() implies #[trigger] signed_text(v)[i]
        != '_' by {
        assert(is_digit(signed_text(v)[i]) || signed_text(v)[i] == '-');
    }
}

/// Distinct (timestamp, parent pid, pid) triples have distinct file names.
pub proof fn lemma_file_name_injective(t1: nat, ppid1: int, pid1: int, t2: nat, ppid2: int, pid2: int)
    requires
        mail_file_name(t1, ppid1, pid1) == mail_file_name(t2, ppid2, pid2),
    ensures
        t1 == t2,
        ppid1 == ppid2,
        pid1 == pid2,
{
    let n1 = mail_file_name(t1, ppid1, pid1);
    let n2 = mail_file_name(t2, ppid2, pid2);
    let c1 = signed_text(pid1) + name_suffix();
    let c2 = signed_text(pid2) + name_suffix();
    let b1 = signed_text(ppid1) + sep() + c1;
    let b2 = signed_text(ppid2) + sep() + c2;
    assert(n1.subrange(9, n1.len() as int) =~= digits_of(t1) + sep() + b1);
    assert(n2.subrange(9, n2.len() as int) =~= digits_of(t2) + sep() + b2);
    lemma_digits_shape(t1);
    lemma_digits_shape(t2);
    assert(no_sep(digits_of(t1)));
    assert(no_sep(digits_of(t2)));
    lemma_split_at_sep(digits_of(t1), b1, digits_of(t2), b2);
    lemma_digits_injective(t1, t2);
    lemma_signed_no_sep(ppid1);
    lemma_signed_no_sep(ppid2);
    lemma_split_at_sep(signed_text(ppid1), c1, signed_text(ppid2), c2);
    lemma_signed_injective(ppid1, ppid2);
    assert(signed_text(pid1) =~= c1.subrange(0, c1.len() - 5));
    assert(signed_text(pid2) =~= c2.subrange(0, c2.len() - 5));
    lemma_signed_injective(pid1, pid2);
}

/// A record's file name, with non-negative process ids, is matched by the grammar.
pub proof fn lemma_file_name_matches(t: nat, ppid: int, pid: int)
    requires
        ppid >= 0,
        pid >= 0,
    ensures
        is_mail_name(mail_file_name(t, ppid, pid)),
{
    let s = mail_file_name(t, ppid, pid);
    let a = digits_of(t);
    let b = signed_text(ppid);
    let c = signed_text(pid);
    lemma_digits_shape(t);
    lemma_signed_shape(ppid);
    lemma_signed_shape(pid);
    let m = s.subrange(9, s.len() - 5);
    assert(m =~= a + sep() + b + sep() + c);
    assert(s.subrange(0, 9) =~= name_prefix());
    assert(s.subrange(s.len() - 5, s.len() as int) =~= name_suffix());
    let i = a.len() as int;
    let j = i + 1 + b.len();
    assert(m.subrange(0, i) =~= a);
    assert(m.subrange(i + 1, j) =~= b);
    assert(m.subrange(j + 1, m.len() as int) =~= c);
    assert(fields_at(m, i, j));
}

fn char_is_digit(c: char) -> (r: bool)
    ensures
        r == is_digit(c),
{
    '0' <= c && c <= '9'
}

/// Whether `s` holds `pat` at position `at`.
fn holds_at(s: &str, at: usize, pat: &str) -> (r: bool)
    requires
        at <= s@.len(),
    ensures
        r == (at + pat@.len() <= s@.len() && s@.subrange(at as int, at + pat@.len()) == pat@),
{
    let n = s.unicode_len();
    let p = pat.unicode_len();
    if p > n - at {
        return false;
    }
    let mut k: usize = 0;
    while k < p
        invariant
            p == pat@.len(),
            n == s@.len(),
            at + p <= n,
            k <= p,
            forall|q: int| 0 <= q < k ==> s@[at + q] == pat@[q],
        decreases p - k,
    {
        if s.get_char(at + k) != pat.get_char(k) {
            assert(s@.subrange(at as int, at + p)[k as int] != pat@[k as int]);
            return false;
        }
        k += 1;
    }
    assert(s@.subrange(at as int, at + p) =~= pat@);
    true
}

/// The end of the run of digits in `s` that starts at `from`, looking no
/// further than `end`.
fn digit_run(s: &str, from: usize, end: usize) -> (k: usize)
    requires
        from <= end <= s@.len(),
    ensures
        from <= k <= end,
        forall|q: int| from <= q < k ==> is_digit(#[trigger] s@[q]),
        k < end ==> !is_digit(s@[k as int]),
{
    let mut k = from;
    while k < end && char_is_digit(s.get_char(k))
        invariant
            from <= k <= end,
            end <= s@.len(),
            forall|q: int| from <= q < k ==> is_digit(#[trigger] s@[q]),
        decreases end - k,
    {
        k += 1;
    }
    k
}

/// Whether `name` is a mail file name: `trapmail_<digits>_<digits>_<digits>.json`,
/// matched whole, with no other character before, between or after.
pub fn is_mail_file_name(name: &str) -> (r: bool)
    ensures
        r == is_mail_name(name@),
{
    let ghost s = name@;
    let n = name.unicode_len();
    proof {
        reveal_strlit("trapmail_");
        reveal_strlit(".json");
        assert("trapmail_"@ =~= name_prefix());
        assert(".json"@ =~= name_suffix());
    }
    if n < 14 {
        return false;
    }
    let end = n - 5;
    if !holds_at(name, 0, "trapmail_") || !holds_at(name, end, ".json") {
        return false;
    }
    let ghost m = s.subrange(9, end as int);
    let i = digit_run(name, 9, end);
    if i == 9 || i >= end || name.get_char(i) != '_' {
        proof {
            assert forall|a: int, b: int| !#[trigger] fields_at(m, a, b) by {
                if fields_at(m, a, b) {
                    if 9 + a < i {
                        assert(m[a] == s[9 + a]);
                    } else {
                        assert(m.subrange(0, a)[i - 9] == s[i as int]);
                    }
                }
            }
        }
        return false;
    }
    let j = digit_run(name, i + 1, end);
    if j == i + 1 || j >= end || name.get_char(j) != '_' {
        proof {
            assert forall|a: int, b: int| !#[trigger] fields_at(m, a, b) by {
                if fields_at(m, a, b) {
                    if 9 + a < i {
                        assert(m[a] == s[9 + a]);
                    } else if 9 + a > i {
                        assert(m.subrange(0, a)[i - 9] == s[i as int]);
                    } else if 9 + b < j {
                        assert(m[b] == s[9 + b]);
                    } else {
                        assert(m.subrange(a + 1, b)[j - 10 - a] == s[j as int]);
                    }
                }
            }
        }
        return false;
    }
    let t = digit_run(name, j + 1, end);
    if t == j + 1 || t != end {
        proof {
            assert forall|a: int, b: int| !#[trigger] fields_at(m, a, b) by {
                if fields_at(m, a, b) {
                    if 9 + a < i {
                        assert(m[a] == s[9 + a]);
                    } else if 9 + a > i {
                        assert(m.subrange(0, a)[i - 9] == s[i as int]);
                    } else if 9 + b < j {
                        assert(m[b] == s[9 + b]);
                    } else if 9 + b > j {
                        assert(m.subrange(a + 1, b)[j - 10 - a] == s[j as int]);
                    } else {
                        assert(m.subrange(b + 1, m.len() as int)[t - 10 - b] == s[t as int]);
                    }
                }
            }
        }
        return false;
    }
    proof {
        let a = i - 9;
        let b = j - 9;
        assert(m[a] == s[i as int]);
        assert(m[b] == s[j as int]);
        assert forall|q: int| 0 <= q < a implies is_digit(#[trigger] m.subrange(0, a)[q]) by {
            assert(m.subrange(0, a)[q] == s[9 + q]);
        }
        assert forall|q: int| 0 <= q < b - a - 1 implies is_digit(
            #[trigger] m.subrange(a + 1, b)[q],
        ) by {
            assert(m.subrange(a + 1, b)[q] == s[i + 1 + q]);
        }
        assert forall|q: int| 0 <= q < m.len() - b - 1 implies is_digit(
            #[trigger] m.subrange(b + 1, m.len() as int)[q],
        ) by {
            assert(m.subrange(b + 1, m.len() as int)[q] == s[j + 1 + q]);
        }
        assert(fields_at(m, a, b));
    }
    true
}

} // verus!
