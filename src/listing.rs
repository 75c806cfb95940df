//! Which directory entries are mail files, and the order they are read in.
//!
//! Entries are ordered by their names, compared character by character, as
//! `String`'s own order does. A name's leading field is the timestamp, so this
//! order is the order of arrival as long as the timestamps have the same
//! number of digits; across a change of digit count (say from 9 to 10 digits)
//! it is not, and this is accepted.
use vstd::prelude::*;
use crate::decimal::{digit_char, digits_of, lemma_digits_shape};
use crate::names::{is_mail_file_name, is_mail_name, mail_file_name, name_prefix};

verus! {

/// Lexicographic order on character sequences; a proper prefix comes first.
pub open spec fn seq_lt(a: Seq<char>, b: Seq<char>) -> bool
    decreases a.len(),
{
    if a.len() == 0 {
        b.len() > 0
    } else if b.len() == 0 {
        false
    } else if a[0] != b[0] {
        a[0] < b[0]
    } else {
        seq_lt(a.drop_first(), b.drop_first())
    }
}

pub open spec fn strictly_sorted(r: Seq<Seq<char>>) -> bool {
    forall|i: int, j: int| 0 <= i < j < r.len() ==> seq_lt(#[trigger] r[i], #[trigger] r[j])
}

/// The character views of a sequence of strings.
pub open spec fn names_of(v: Seq<String>) -> Seq<Seq<char>> {
    v.map_values(|s: String| s@)
}

/// `r` lists, in strictly increasing order, exactly the mail names among `entries`.
pub open spec fn is_listing(entries: Seq<Seq<char>>, r: Seq<Seq<char>>) -> bool {
    &&& strictly_sorted(r)
    &&& forall|x: Seq<char>| #[trigger] r.contains(x) <==> (entries.contains(x) && is_mail_name(x))
}

pub proof fn lemma_lt_irreflexive(a: Seq<char>)
    ensures
        !seq_lt(a, a),
    decreases a.len(),
{
    if a.len() > 0 {
        lemma_lt_irreflexive(a.drop_first());
    }
}

pub proof fn lemma_lt_transitive(a: Seq<char>, b: Seq<char>, c: Seq<char>)
    requires
        seq_lt(a, b),
        seq_lt(b, c),
    ensures
        seq_lt(a, c),
    decreases a.len(),
{
    if a.len() > 0 && b.len() > 0 && c.len() > 0 && a[0] == b[0] && b[0] == c[0] {
        lemma_lt_transitive(a.drop_first(), b.drop_first(), c.drop_first());
    }
}

pub proof fn lemma_lt_total(a: Seq<char>, b: Seq<char>)
    requires
        a != b,
    ensures
        seq_lt(a, b) || seq_lt(b, a),
    decreases a.len(),
{
    if a.len() > 0 && b.len() > 0 && a[0] == b[0] {
        if a.drop_first() == b.drop_first() {
            assert(a =~= seq![a[0]] + a.drop_first());
            assert(b =~= seq![b[0]] + b.drop_first());
        }
        lemma_lt_total(a.drop_first(), b.drop_first());
    } else if a.len() == 0 && b.len() == 0 {
        assert(a =~= b);
    }
}

proof fn lemma_lt_append(a: Seq<char>, b: Seq<char>, x: Seq<char>, y: Seq<char>)
    requires
        a.len() == b.len(),
        seq_lt(a, b),
    ensures
        seq_lt(a + x, b + y),
    decreases a.len(),
{
    assert((a + x)[0] == a[0]);
    assert((b + y)[0] == b[0]);
    if a[0] == b[0] {
        assert((a + x).drop_first() =~= a.drop_first() + x);
        assert((b + y).drop_first() =~= b.drop_first() + y);
        lemma_lt_append(a.drop_first(), b.drop_first(), x, y);
    }
}

proof fn lemma_lt_prepend(p: Seq<char>, a: Seq<char>, b: Seq<char>)
    requires
        seq_lt(a, b),
    ensures
        seq_lt(p + a, p + b),
    decreases p.len(),
{
    if p.len() == 0 {
        assert(p + a =~= a);
        assert(p + b =~= b);
    } else {
        assert((p + a).drop_first() =~= p.drop_first() + a);
        assert((p + b).drop_first() =~= p.drop_first() + b);
        lemma_lt_prepend(p.drop_first(), a, b);
    }
}

/// Of two numbers with as many digits, the smaller has the earlier text.
pub proof fn lemma_digits_order(n: nat, m: nat)
    requires
        n < m,
        digits_of(n).len() == digits_of(m).len(),
    ensures
        seq_lt(digits_of(n), digits_of(m)),
    decreases n,
{
    if n >= 10 {
        lemma_digits_shape(n / 10);
    }
    if m >= 10 {
        lemma_digits_shape(m / 10);
    }
    if n < 10 && m < 10 {
        assert(digit_char(n) < digit_char(m));
    } else if n >= 10 && m >= 10 {
        let dn = seq![digit_char(n % 10)];
        let dm = seq![digit_char(m % 10)];
        assert(digits_of(n) =~= digits_of(n / 10) + dn);
        assert(digits_of(m) =~= digits_of(m / 10) + dm);
        if n / 10 < m / 10 {
            lemma_digits_order(n / 10, m / 10);
            lemma_lt_append(digits_of(n / 10), digits_of(m / 10), dn, dm);
        } else {
            assert(n % 10 < m % 10);
            assert(digit_char(n % 10) < digit_char(m % 10));
            assert(seq_lt(dn, dm));
            lemma_lt_prepend(digits_of(n / 10), dn, dm);
        }
    }
}

/// Of two records whose timestamps have as many digits, the earlier one's
/// file name comes first.
pub proof fn lemma_file_name_order(t1: nat, ppid1: int, pid1: int, t2: nat, ppid2: int, pid2: int)
    requires
        t1 < t2,
        digits_of(t1).len() == digits_of(t2).len(),
    ensures
        seq_lt(mail_file_name(t1, ppid1, pid1), mail_file_name(t2, ppid2, pid2)),
{
    let n1 = mail_file_name(t1, ppid1, pid1);
    let n2 = mail_file_name(t2, ppid2, pid2);
    let r1 = n1.subrange(9 + digits_of(t1).len() as int, n1.len() as int);
    let r2 = n2.subrange(9 + digits_of(t2).len() as int, n2.len() as int);
    assert(n1 =~= name_prefix() + (digits_of(t1) + r1));
    assert(n2 =~= name_prefix() + (digits_of(t2) + r2));
    lemma_digits_order(t1, t2);
    lemma_lt_append(digits_of(t1), digits_of(t2), r1, r2);
    lemma_lt_prepend(name_prefix(), digits_of(t1) + r1, digits_of(t2) + r2);
}

/// A listing puts records in the order of their timestamps, as long as the
/// timestamps have as many digits.
pub proof fn lemma_listing_in_arrival_order(
    entries: Seq<Seq<char>>,
    names: Seq<Seq<char>>,
    i: int,
    j: int,
    t1: nat,
    ppid1: int,
    pid1: int,
    t2: nat,
    ppid2: int,
    pid2: int,
)
    requires
        is_listing(entries, names),
        0 <= i < names.len(),
        0 <= j < names.len(),
        names[i] == mail_file_name(t1, ppid1, pid1),
        names[j] == mail_file_name(t2, ppid2, pid2),
        t1 < t2,
        digits_of(t1).len() == digits_of(t2).len(),
    ensures
        i < j,
{
    lemma_file_name_order(t1, ppid1, pid1, t2, ppid2, pid2);
    lemma_lt_irreflexive(names[i]);
    if j < i {
        assert(seq_lt(names[j], names[i]));
        lemma_lt_transitive(names[i], names[j], names[i]);
    }
}

/// Whether `a` comes strictly before `b`.
fn str_lt(a: &str, b: &str) -> (r: bool)
    ensures
        r == seq_lt(a@, b@),
{
    let la = a.unicode_len();
    let lb = b.unicode_len();
    let mut k: usize = 0;
    assert(a@.subrange(0, la as int) =~= a@);
    assert(b@.subrange(0, lb as int) =~= b@);
    while k < la && k < lb && a.get_char(k) == b.get_char(k)
        invariant
            la == a@.len(),
            lb == b@.len(),
            k <= la,
            k <= lb,
            seq_lt(a@, b@) == seq_lt(a@.subrange(k as int, la as int), b@.subrange(k as int, lb as int)),
        decreases la - k,
    {
        proof {
            let sa = a@.subrange(k as int, la as int);
            let sb = b@.subrange(k as int, lb as int);
            assert(sa.drop_first() =~= a@.subrange(k + 1, la as int));
            assert(sb.drop_first() =~= b@.subrange(k + 1, lb as int));
        }
        k += 1;
    }
    if k == la {
        k < lb
    } else if k == lb {
        false
    } else {
        a.get_char(k) < b.get_char(k)
    }
}

/// The mail file names among `entries`, each once, in increasing order.
/// Entries that are not mail file names are passed over.
pub fn select_mail_names(entries: &Vec<String>) -> (r: Vec<String>)
    ensures
        is_listing(names_of(entries@), names_of(r@)),
{
    let mut r: Vec<String> = Vec::new();
    let mut idx: usize = 0;
    while idx < entries.len()
        invariant
            idx <= entries.len(),
            is_listing(names_of(entries@.take(idx as int)), names_of(r@)),
        decreases entries.len() - idx,
    {
        let e = &entries[idx];
        let ghost before = names_of(r@);
        let ghost seen = names_of(entries@.take(idx as int));
        let ghost seen2 = names_of(entries@.take(idx + 1));
        assert(seen2 =~= seen.push(e@));
        if is_mail_file_name(e.as_str()) {
            let mut p: usize = 0;
            while p < r.len() && str_lt(r[p].as_str(), e.as_str())
                invariant
                    p <= r.len(),
                    names_of(r@) == before,
                    forall|q: int| 0 <= q < p ==> seq_lt(#[trigger] before[q], e@),
                decreases r.len() - p,
            {
                p += 1;
            }
            if p < r.len() && !str_lt(e.as_str(), r[p].as_str()) {
                proof {
                    if before[p as int] != e@ {
                        lemma_lt_total(before[p as int], e@);
                    }
                    assert forall|x: Seq<char>| #[trigger] before.contains(x) <==> (seen2.contains(x)
                        && is_mail_name(x)) by {
                        if seen2.contains(x) && !seen.contains(x) {
                            assert(x == e@);
                        }
                        if seen.contains(x) {
                            let w = choose|w: int| 0 <= w < seen.len() && seen[w] == x;
                            assert(seen2[w] == x);
                        }
                    }
                }
            } else {
                let ghost ins = e@;
                r.insert(p, e.clone());
                proof {
                    let after = names_of(r@);
                    assert(after =~= before.insert(p as int, ins));
                    assert forall|i: int, j: int| 0 <= i < j < after.len() implies seq_lt(
                        #[trigger] after[i],
                        #[trigger] after[j],
                    ) by {
                        if j == p && i < p {
                        } else if i == p && j > p {
                            if j - 1 > p {
                                lemma_lt_transitive(ins, before[p as int], before[j - 1]);
                            }
                        } else if i < p && j > p {
                            assert(after[j] == before[j - 1]);
                        } else if i > p {
                            assert(after[i] == before[i - 1]);
                            assert(after[j] == before[j - 1]);
                        }
                    }
                    assert forall|x: Seq<char>| #[trigger] after.contains(x) <==> (seen2.contains(x)
                        && is_mail_name(x)) by {
                        if after.contains(x) {
                            let w = choose|w: int| 0 <= w < after.len() && after[w] == x;
                            if w != p {
                                if w < p {
                                    assert(before[w] == x);
                                } else {
                                    assert(before[w - 1] == x);
                                }
                                assert(before.contains(x));
                                let w2 = choose|w2: int| 0 <= w2 < seen.len() && seen[w2] == x;
                                assert(seen2[w2] == x);
                            } else {
                                assert(seen2[seen.len() as int] == x);
                            }
                        }
                        if seen2.contains(x) && is_mail_name(x) {
                            if x == ins {
                                assert(after[p as int] == x);
                            } else {
                                let w = choose|w: int| 0 <= w < seen2.len() && seen2[w] == x;
                                assert(seen[w] == x);
                                assert(before.contains(x));
                                let v = choose|v: int| 0 <= v < before.len() && before[v] == x;
                                if v < p {
                                    assert(after[v] == x);
                                } else {
                                    assert(after[v + 1] == x);
                                }
                            }
                        }
                    }
                }
            }
        } else {
            proof {
                assert forall|x: Seq<char>| #[trigger] before.contains(x) <==> (seen2.contains(x)
                    && is_mail_name(x)) by {
                    if seen2.contains(x) && !seen.contains(x) {
                        assert(x == e@);
                    }
                    if seen.contains(x) {
                        let w = choose|w: int| 0 <= w < seen.len() && seen[w] == x;
                        assert(seen2[w] == x);
                    }
                }
            }
        }
        idx += 1;
    }
    assert(entries@.take(entries.len() as int) =~= entries@);
    r
}

} // verus!
