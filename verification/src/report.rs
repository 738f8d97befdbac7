//! The report emitter's computational side: the stable orders that the
//! presentation layers need.  The aggregates themselves promise no order, so
//! callers that need one sort explicitly — day rows come out of the
//! aggregator already keyed in ascending day order, and domain rows are
//! sorted here by count descending, then domain ascending.  Rendering
//! (tables, charts, mail) holds no logic and stays outside the library.

use vstd::prelude::*;
use vstd::multiset::Multiset;

use crate::record::Entry;
use crate::record::EntryModel;
use crate::record::Timestamp;
use crate::record::models;

verus! {

/// Lexicographic order on character sequences, by code point.
pub open spec fn lex_le(a: Seq<char>, b: Seq<char>) -> bool
    decreases a.len(),
{
    if a.len() == 0 {
        true
    } else if b.len() == 0 {
        false
    } else if (a[0] as u32) < (b[0] as u32) {
        true
    } else if (a[0] as u32) > (b[0] as u32) {
        false
    } else {
        lex_le(a.drop_first(), b.drop_first())
    }
}

/// Lexicographic order is total.
proof fn lemma_lex_le_total(a: Seq<char>, b: Seq<char>)
    ensures
        lex_le(a, b) || lex_le(b, a),
    decreases a.len(),
{
    if a.len() == 0 || b.len() == 0 {
    } else if (a[0] as u32) == (b[0] as u32) {
        lemma_lex_le_total(a.drop_first(), b.drop_first());
    }
}

/// Lexicographic order is transitive.
proof fn lemma_lex_le_trans(a: Seq<char>, b: Seq<char>, c: Seq<char>)
    requires
        lex_le(a, b),
        lex_le(b, c),
    ensures
        lex_le(a, c),
    decreases a.len(),
{
    if a.len() == 0 {
    } else if b.len() == 0 {
    } else if c.len() == 0 {
    } else if (a[0] as u32) == (b[0] as u32) && (b[0] as u32) == (c[0] as u32) {
        lemma_lex_le_trans(a.drop_first(), b.drop_first(), c.drop_first());
    }
}

/// The report order on domain rows: more mail first; between equal counts,
/// domain ascending.
pub open spec fn domain_row_le(x: (String, usize), y: (String, usize)) -> bool {
    x.1 > y.1 || (x.1 == y.1 && lex_le(x.0@, y.0@))
}

/// The report order is total.
proof fn lemma_domain_row_le_total(x: (String, usize), y: (String, usize))
    ensures
        domain_row_le(x, y) || domain_row_le(y, x),
{
    if x.1 == y.1 {
        lemma_lex_le_total(x.0@, y.0@);
    }
}

/// The report order is transitive.
proof fn lemma_domain_row_le_trans(x: (String, usize), y: (String, usize), z: (String, usize))
    requires
        domain_row_le(x, y),
        domain_row_le(y, z),
    ensures
        domain_row_le(x, z),
{
    if x.1 == y.1 && y.1 == z.1 {
        lemma_lex_le_trans(x.0@, y.0@, z.0@);
    }
}

/// Lexicographic order on strings, by code point.
pub fn str_le(a: &str, b: &str) -> (r: bool)
    ensures
        r == lex_le(a@, b@),
{
    let na = a.unicode_len();
    let nb = b.unicode_len();
    let mut i: usize = 0;
    proof {
        assert(a@.skip(0) =~= a@);
        assert(b@.skip(0) =~= b@);
    }
    #[verifier::loop_isolation(false)]
    while i < na && i < nb
        invariant
            i <= na == a@.len(),
            i <= nb == b@.len(),
            lex_le(a@, b@) == lex_le(a@.skip(i as int), b@.skip(i as int)),
        decreases na - i,
    {
        let ca = a.get_char(i);
        let cb = b.get_char(i);
        proof {
            assert(a@.skip(i as int)[0] == a@[i as int]);
            assert(b@.skip(i as int)[0] == b@[i as int]);
            assert(a@.skip(i as int).drop_first() =~= a@.skip(i as int + 1));
            assert(b@.skip(i as int).drop_first() =~= b@.skip(i as int + 1));
        }
        if (ca as u32) < (cb as u32) {
            return true;
        }
        if (ca as u32) > (cb as u32) {
            return false;
        }
        i += 1;
    }
    proof {
        if i >= na {
            assert(a@.skip(i as int).len() == 0);
        } else {
            assert(b@.skip(i as int).len() == 0);
            assert(a@.skip(i as int).len() > 0);
        }
    }
    na <= nb
}

/// The report order on domain rows, decided.
fn domain_row_le_x(x: &(String, usize), y: &(String, usize)) -> (r: bool)
    ensures
        r == domain_row_le(*x, *y),
{
    if x.1 != y.1 {
        x.1 > y.1
    } else {
        str_le(x.0.as_str(), y.0.as_str())
    }
}

/// Whether a domain row list is in report order.
pub open spec fn domain_rows_sorted(rows: Seq<(String, usize)>) -> bool {
    forall|i: int, j: int|
        0 <= i < j < rows.len() ==> domain_row_le(#[trigger] rows[i], #[trigger] rows[j])
}

/// Sorts domain rows into report order: count descending, then domain
/// ascending.  The result holds exactly the given rows.
pub fn sort_domain_rows(rows: Vec<(String, usize)>) -> (r: Vec<(String, usize)>)
    ensures
        domain_rows_sorted(r@),
        r@.to_multiset() == rows@.to_multiset(),
{
    broadcast use vstd::seq_lib::group_to_multiset_ensures;

    let mut rest = rows;
    let mut out: Vec<(String, usize)> = Vec::new();
    proof {
        assert(out@.to_multiset().add(rest@.to_multiset()) =~= rows@.to_multiset());
    }
    #[verifier::loop_isolation(false)]
    while rest.len() > 0
        invariant
            out@.to_multiset().add(rest@.to_multiset()) == rows@.to_multiset(),
            domain_rows_sorted(out@),
            forall|i: int, j: int|
                0 <= i < out@.len() && 0 <= j < rest@.len() ==> domain_row_le(
                    #[trigger] out@[i],
                    #[trigger] rest@[j],
                ),
        decreases rest@.len(),
    {
        let mut m: usize = 0;
        let mut j: usize = 1;
        proof {
            lemma_domain_row_le_total(rest@[0], rest@[0]);
        }
        while j < rest.len()
            invariant
                m < j <= rest@.len(),
                rest@.len() > 0,
                forall|t: int| 0 <= t < j ==> domain_row_le(rest@[m as int], #[trigger] rest@[t]),
            decreases rest@.len() - j,
        {
            if !domain_row_le_x(&rest[m], &rest[j]) {
                proof {
                    lemma_domain_row_le_total(rest@[m as int], rest@[j as int]);
                    lemma_domain_row_le_total(rest@[j as int], rest@[j as int]);
                    assert forall|t: int|
                        0 <= t < j implies domain_row_le(rest@[j as int], #[trigger] rest@[t]) by {
                        lemma_domain_row_le_trans(rest@[j as int], rest@[m as int], rest@[t]);
                    }
                }
                m = j;
            }
            j += 1;
        }
        let ghost rest0 = rest@;
        let ghost out0 = out@;
        let v = rest.remove(m);
        out.push(v);
        proof {
            assert(rest0.contains(rest0[m as int]));
            assert(rest0.to_multiset().count(rest0[m as int]) > 0);
            assert(out@.to_multiset().add(rest@.to_multiset()) =~= out0.to_multiset().add(
                rest0.to_multiset(),
            ));
            assert forall|i: int, j2: int|
                0 <= i < out@.len() && 0 <= j2 < rest@.len() implies domain_row_le(
                #[trigger] out@[i],
                #[trigger] rest@[j2],
            ) by {
                if j2 < m {
                    assert(rest@[j2] == rest0[j2]);
                } else {
                    assert(rest@[j2] == rest0[j2 + 1]);
                }
                if i < out0.len() {
                    assert(out@[i] == out0[i]);
                } else {
                    assert(out@[i] == rest0[m as int]);
                }
            }
        }
    }
    proof {
        assert(rest@.to_multiset() =~= Multiset::<(String, usize)>::empty());
        assert(out@.to_multiset().add(Multiset::<(String, usize)>::empty()) =~= out@.to_multiset());
    }
    out
}

/// The day of the week a day number falls on, 0 through 6 with 0 on Sunday:
/// day 0, 1970-01-01, was a Thursday.
pub open spec fn weekday_index(day: int) -> int {
    (day + 4) % 7
}

/// The three-letter name of the day of the week a day number falls on.
pub open spec fn weekday_name(day: int) -> Seq<char> {
    let i = weekday_index(day);
    if i == 0 {
        "Sun"@
    } else if i == 1 {
        "Mon"@
    } else if i == 2 {
        "Tue"@
    } else if i == 3 {
        "Wed"@
    } else if i == 4 {
        "Thu"@
    } else if i == 5 {
        "Fri"@
    } else {
        "Sat"@
    }
}

/// The name of the day of the week that a day number since 1970-01-01 falls
/// on.
pub fn weekday_of(day: i64) -> (r: String)
    ensures
        r@ == weekday_name(day as int),
{
    let m = day.checked_rem_euclid(7).unwrap();
    proof {
        vstd::arithmetic::div_mod::lemma_add_mod_noop(day as int, 4, 7);
        assert(weekday_index(day as int) == (m + 4) % 7);
    }
    let name = if m == 0 {
        "Thu"
    } else if m == 1 {
        "Fri"
    } else if m == 2 {
        "Sat"
    } else if m == 3 {
        "Sun"
    } else if m == 4 {
        "Mon"
    } else if m == 5 {
        "Tue"
    } else {
        "Wed"
    };
    String::from_str(name)
}

/// The records of `s` at or after the cutoff, in order: the view of a
/// snapshot restricted to the run's reporting window.
pub open spec fn window(s: Seq<EntryModel>, cutoff: Timestamp) -> Seq<EntryModel>
    decreases s.len(),
{
    if s.len() == 0 {
        Seq::empty()
    } else if s.last().date.spec_lt(cutoff) {
        window(s.drop_last(), cutoff)
    } else {
        window(s.drop_last(), cutoff).push(s.last())
    }
}

/// Restricts a snapshot to the records at or after the cutoff, keeping their
/// order — the "this run's window" view for reporting, as opposed to the
/// all-time view of the whole snapshot.
pub fn filter_window(entries: &Vec<Entry>, cutoff: Timestamp) -> (r: Vec<Entry>)
    ensures
        models(r@) == window(models(entries@), cutoff),
{
    let ghost ms = models(entries@);
    let mut out: Vec<Entry> = Vec::new();
    let mut i: usize = 0;
    #[verifier::loop_isolation(false)]
    while i < entries.len()
        invariant
            i <= entries@.len(),
            models(out@) == window(ms.take(i as int), cutoff),
        decreases entries@.len() - i,
    {
        let e = &entries[i];
        proof {
            assert(ms.take(i as int + 1).drop_last() =~= ms.take(i as int));
            assert(ms.take(i as int + 1).last() == ms[i as int]);
        }
        if !e.date.is_before(&cutoff) {
            let ghost before = models(out@);
            out.push(e.clone());
            proof {
                assert(models(out@) =~= before.push(ms[i as int]));
            }
        }
        i += 1;
    }
    proof {
        assert(ms.take(entries@.len() as int) =~= ms);
    }
    out
}

} // verus!
