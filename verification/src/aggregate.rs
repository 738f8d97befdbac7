//! The aggregator: pure, order-insensitive reductions of a record collection
//! to counts per calendar day and counts per sender domain.
//!
//! Both reductions exclude records at or before the sentinel erroneous
//! timestamp, whether or not the collection was already filtered.  An
//! unparseable sender address does not abort the domain aggregate: the record
//! is skipped and counted separately, which keeps the drop visible.

use vstd::prelude::*;

use crate::record::Entry;
use crate::record::EntryModel;
use crate::record::Timestamp;
use crate::record::models;

verus! {

/// Whether a record counts at all: strictly after the sentinel.
pub open spec fn valid_entry(e: EntryModel, sentinel: Timestamp) -> bool {
    !e.date.spec_le(sentinel)
}

/// How many records of `s` are valid.
pub open spec fn valid_count(s: Seq<EntryModel>, sentinel: Timestamp) -> int
    decreases s.len(),
{
    if s.len() == 0 {
        0
    } else {
        valid_count(s.drop_last(), sentinel) + if valid_entry(s.last(), sentinel) {
            1int
        } else {
            0
        }
    }
}

/// How many valid records of `s` fall on calendar day `d`.
pub open spec fn day_count(s: Seq<EntryModel>, sentinel: Timestamp, d: int) -> int
    decreases s.len(),
{
    if s.len() == 0 {
        0
    } else {
        day_count(s.drop_last(), sentinel, d) + if valid_entry(s.last(), sentinel)
            && s.last().date.spec_day() == d {
            1int
        } else {
            0
        }
    }
}

/// The count a day-aggregate row list records for day `d`: the sum of the
/// counts of its rows with that key.
pub open spec fn day_row_val(rows: Seq<(i64, usize)>, d: int) -> int
    decreases rows.len(),
{
    if rows.len() == 0 {
        0
    } else {
        day_row_val(rows.drop_last(), d) + if rows.last().0 == d {
            rows.last().1 as int
        } else {
            0
        }
    }
}

/// The sum of all counts of a day-aggregate row list.
pub open spec fn day_row_sum(rows: Seq<(i64, usize)>) -> int
    decreases rows.len(),
{
    if rows.len() == 0 {
        0
    } else {
        day_row_sum(rows.drop_last()) + rows.last().1 as int
    }
}

/// A row list with pairwise distinct keys records for a present key exactly
/// that row's count.
proof fn lemma_day_row_val_at(rows: Seq<(i64, usize)>, k: int)
    requires
        0 <= k < rows.len(),
        forall|i: int, j: int| 0 <= i < j < rows.len() ==> rows[i].0 != rows[j].0,
    ensures
        day_row_val(rows, rows[k].0 as int) == rows[k].1 as int,
    decreases rows.len(),
{
    if k == rows.len() - 1 {
        lemma_day_row_val_absent(rows.drop_last(), rows[k].0 as int);
    } else {
        lemma_day_row_val_at(rows.drop_last(), k);
    }
}

/// A row list records zero for a key none of its rows carries.
proof fn lemma_day_row_val_absent(rows: Seq<(i64, usize)>, d: int)
    requires
        forall|i: int| 0 <= i < rows.len() ==> rows[i].0 != d,
    ensures
        day_row_val(rows, d) == 0,
    decreases rows.len(),
{
    if rows.len() == 0 {
    } else {
        lemma_day_row_val_absent(rows.drop_last(), d);
    }
}

/// Inserting a row adds its count to its key and to the sum, and leaves
/// every other key's value unchanged.
proof fn lemma_day_row_insert(rows: Seq<(i64, usize)>, k: int, v: (i64, usize))
    requires
        0 <= k <= rows.len(),
    ensures
        forall|d: int|
            #[trigger] day_row_val(rows.insert(k, v), d) == day_row_val(rows, d) + if v.0 == d {
                v.1 as int
            } else {
                0
            },
        day_row_sum(rows.insert(k, v)) == day_row_sum(rows) + v.1,
    decreases rows.len(),
{
    let rows2 = rows.insert(k, v);
    if k == rows.len() {
        assert(rows2.drop_last() =~= rows);
        assert(rows2.last() == v);
    } else {
        lemma_day_row_insert(rows.drop_last(), k, v);
        assert(rows2.drop_last() =~= rows.drop_last().insert(k, v));
        assert(rows2.last() == rows.last());
        assert forall|d: int|
            #[trigger] day_row_val(rows2, d) == day_row_val(rows, d) + if v.0 == d {
                v.1 as int
            } else {
                0
            } by {
            assert(day_row_val(rows.drop_last().insert(k, v), d) == day_row_val(
                rows.drop_last(),
                d,
            ) + if v.0 == d {
                v.1 as int
            } else {
                0
            });
            assert(day_row_val(rows2.drop_last(), d) == day_row_val(
                rows.drop_last().insert(k, v),
                d,
            ));
        }
    }
}

/// Replacing a row's count changes its key's value and the sum by the
/// difference, and leaves every other key's value unchanged.
proof fn lemma_day_row_update(rows: Seq<(i64, usize)>, k: int, c: usize)
    requires
        0 <= k < rows.len(),
    ensures
        forall|d: int|
            #[trigger] day_row_val(rows.update(k, (rows[k].0, c)), d) == day_row_val(rows, d)
                + if rows[k].0 == d {
                c - rows[k].1
            } else {
                0
            },
        day_row_sum(rows.update(k, (rows[k].0, c))) == day_row_sum(rows) + c - rows[k].1,
    decreases rows.len(),
{
    let rows2 = rows.update(k, (rows[k].0, c));
    if k == rows.len() - 1 {
        assert(rows2.drop_last() =~= rows.drop_last());
        assert(rows2.last() == (rows[k].0, c));
    } else {
        lemma_day_row_update(rows.drop_last(), k, c);
        assert(rows2.drop_last() =~= rows.drop_last().update(k, (rows[k].0, c)));
        assert(rows2.last() == rows.last());
        assert(rows.drop_last()[k] == rows[k]);
        assert forall|d: int|
            #[trigger] day_row_val(rows2, d) == day_row_val(rows, d) + if rows[k].0 == d {
                c - rows[k].1
            } else {
                0
            } by {
            assert(day_row_val(rows.drop_last().update(k, (rows[k].0, c)), d) == day_row_val(
                rows.drop_last(),
                d,
            ) + if rows[k].0 == d {
                c - rows[k].1
            } else {
                0
            });
            assert(day_row_val(rows2.drop_last(), d) == day_row_val(
                rows.drop_last().update(k, (rows[k].0, c)),
                d,
            ));
        }
    }
}

/// A day's count never exceeds the number of records.
proof fn lemma_day_count_bounded(s: Seq<EntryModel>, sentinel: Timestamp, d: int)
    ensures
        0 <= day_count(s, sentinel, d) <= s.len(),
        0 <= valid_count(s, sentinel) <= s.len(),
    decreases s.len(),
{
    if s.len() == 0 {
    } else {
        lemma_day_count_bounded(s.drop_last(), sentinel, d);
    }
}

/// Counts the valid records of `entries` per calendar day (the day each
/// record's timestamp falls on, in its own stored offset, as a day number
/// since 1970-01-01).
///
/// The rows come out with strictly ascending day keys; each present day's
/// count is exactly the number of valid records on that day; a day appears
/// if and only if some valid record falls on it; and the counts sum to the
/// number of valid records — records at or before the sentinel count
/// nowhere.
pub fn count_by_date(entries: &Vec<Entry>, sentinel: Timestamp) -> (r: Vec<(i64, usize)>)
    ensures
        forall|i: int, j: int| 0 <= i < j < r@.len() ==> r@[i].0 < r@[j].0,
        forall|k: int|
            0 <= k < r@.len() ==> (#[trigger] r@[k]).1 as int == day_count(
                models(entries@),
                sentinel,
                r@[k].0 as int,
            ) && r@[k].1 >= 1,
        forall|d: int|
            day_count(models(entries@), sentinel, d) != 0 <==> exists|k: int|
                0 <= k < r@.len() && (#[trigger] r@[k]).0 == d,
        day_row_sum(r@) == valid_count(models(entries@), sentinel),
{
    let ghost ms = models(entries@);
    let mut rows: Vec<(i64, usize)> = Vec::new();
    let mut i: usize = 0;
    #[verifier::loop_isolation(false)]
    while i < entries.len()
        invariant
            i <= entries@.len(),
            forall|p: int, q: int| 0 <= p < q < rows@.len() ==> rows@[p].0 < rows@[q].0,
            forall|k: int| 0 <= k < rows@.len() ==> (#[trigger] rows@[k]).1 >= 1,
            forall|d: int|
                day_row_val(rows@, d) == day_count(ms.take(i as int), sentinel, d),
            day_row_sum(rows@) == valid_count(ms.take(i as int), sentinel),
        decreases entries@.len() - i,
    {
        let e = &entries[i];
        proof {
            assert(ms.take(i as int + 1).drop_last() =~= ms.take(i as int));
            assert(ms.take(i as int + 1).last() == ms[i as int]);
        }
        if !e.date.is_at_or_before(&sentinel) {
            let d = e.date.day_number();
            proof {
                lemma_day_count_bounded(ms.take(i as int), sentinel, d as int);
            }
            let mut k: usize = 0;
            while k < rows.len() && rows[k].0 < d
                invariant
                    k <= rows@.len(),
                    forall|j: int| 0 <= j < k ==> rows@[j].0 < d,
                decreases rows@.len() - k,
            {
                k += 1;
            }
            if k < rows.len() && rows[k].0 == d {
                let ghost before = rows@;
                let c = rows[k].1;
                proof {
                    lemma_day_row_val_at(before, k as int);
                    lemma_day_row_update(before, k as int, (c + 1) as usize);
                }
                let _replaced = rows.remove(k);
                rows.insert(k, (d, c + 1));
                proof {
                    assert(rows@ =~= before.update(k as int, (d, (c + 1) as usize)));
                }
            } else {
                let ghost before = rows@;
                proof {
                    assert forall|j: int| 0 <= j < before.len() implies before[j].0 != d by {
                        if j > k {
                            assert(before[k as int].0 < before[j].0);
                        }
                    }
                    lemma_day_row_val_absent(before, d as int);
                    lemma_day_row_insert(before, k as int, (d, 1usize));
                }
                rows.insert(k, (d, 1));
            }
        }
        i += 1;
    }
    proof {
        assert(ms.take(entries@.len() as int) =~= ms);
        assert forall|d: int|
            day_count(ms, sentinel, d) != 0 implies exists|k: int|
            0 <= k < rows@.len() && (#[trigger] rows@[k]).0 == d by {
            if forall|k: int| 0 <= k < rows@.len() ==> (#[trigger] rows@[k]).0 != d {
                lemma_day_row_val_absent(rows@, d);
            }
        }
        assert forall|k: int|
            0 <= k < rows@.len() implies (#[trigger] rows@[k]).1 as int == day_count(
            ms,
            sentinel,
            rows@[k].0 as int,
        ) by {
            lemma_day_row_val_at(rows@, k);
        }
    }
    rows
}

// ---------------------------------------------------------------------------
// The domain aggregate
// ---------------------------------------------------------------------------
/// What parsing a sender address yields: the address's domain part, or
/// nothing when the string is not a well-formed address.  The result depends
/// on the string alone.
pub uninterp spec fn parsed_domain(addr: Seq<char>) -> Option<Seq<char>>;

/// Relies on `email_address_parser::EmailAddress::parse`, a parser whose
/// result depends on the input string alone, and on `get_domain`, which
/// returns the parsed address's domain part.
#[verifier::external_body]
fn parse_domain(addr: &str) -> (r: Option<String>)
    ensures
        r matches Some(d) ==> parsed_domain(addr@) == Some(d@),
        r is None ==> parsed_domain(addr@) is None,
{
    email_address_parser::EmailAddress::parse(addr, None).map(|a| a.get_domain().to_string())
}

/// How many valid records of `s` have a parseable sender address.
pub open spec fn parsed_count(s: Seq<EntryModel>, sentinel: Timestamp) -> int
    decreases s.len(),
{
    if s.len() == 0 {
        0
    } else {
        parsed_count(s.drop_last(), sentinel) + if valid_entry(s.last(), sentinel)
            && parsed_domain(s.last().from_addr) is Some {
            1int
        } else {
            0
        }
    }
}

/// How many valid records of `s` have an unparseable sender address.
pub open spec fn unparsed_count(s: Seq<EntryModel>, sentinel: Timestamp) -> int
    decreases s.len(),
{
    if s.len() == 0 {
        0
    } else {
        unparsed_count(s.drop_last(), sentinel) + if valid_entry(s.last(), sentinel)
            && parsed_domain(s.last().from_addr) is None {
            1int
        } else {
            0
        }
    }
}

/// How many valid records of `s` have sender domain `d`.
pub open spec fn domain_count(s: Seq<EntryModel>, sentinel: Timestamp, d: Seq<char>) -> int
    decreases s.len(),
{
    if s.len() == 0 {
        0
    } else {
        domain_count(s.drop_last(), sentinel, d) + if valid_entry(s.last(), sentinel)
            && parsed_domain(s.last().from_addr) == Some(d) {
            1int
        } else {
            0
        }
    }
}

/// Every valid record either parses or does not: the two partial counts
/// partition the valid ones.
pub proof fn lemma_domain_partition(s: Seq<EntryModel>, sentinel: Timestamp)
    ensures
        parsed_count(s, sentinel) + unparsed_count(s, sentinel) == valid_count(s, sentinel),
    decreases s.len(),
{
    if s.len() == 0 {
    } else {
        lemma_domain_partition(s.drop_last(), sentinel);
    }
}

/// Whether a domain-aggregate row list carries a row for domain `d`.
pub open spec fn has_domain(rows: Seq<(String, usize)>, d: Seq<char>) -> bool {
    exists|k: int| 0 <= k < rows.len() && (#[trigger] rows[k]).0@ == d
}

/// The count a domain-aggregate row list records for domain `d`.
pub open spec fn dom_row_val(rows: Seq<(String, usize)>, d: Seq<char>) -> int
    decreases rows.len(),
{
    if rows.len() == 0 {
        0
    } else {
        dom_row_val(rows.drop_last(), d) + if rows.last().0@ == d {
            rows.last().1 as int
        } else {
            0
        }
    }
}

/// The sum of all counts of a domain-aggregate row list.
pub open spec fn dom_row_sum(rows: Seq<(String, usize)>) -> int
    decreases rows.len(),
{
    if rows.len() == 0 {
        0
    } else {
        dom_row_sum(rows.drop_last()) + rows.last().1 as int
    }
}

/// A row list with pairwise distinct keys records for a present key exactly
/// that row's count.
proof fn lemma_dom_row_val_at(rows: Seq<(String, usize)>, k: int)
    requires
        0 <= k < rows.len(),
        forall|i: int, j: int| 0 <= i < j < rows.len() ==> rows[i].0@ != rows[j].0@,
    ensures
        dom_row_val(rows, rows[k].0@) == rows[k].1 as int,
    decreases rows.len(),
{
    if k == rows.len() - 1 {
        lemma_dom_row_val_absent(rows.drop_last(), rows[k].0@);
    } else {
        lemma_dom_row_val_at(rows.drop_last(), k);
    }
}

/// A row list records zero for a key none of its rows carries.
proof fn lemma_dom_row_val_absent(rows: Seq<(String, usize)>, d: Seq<char>)
    requires
        forall|i: int| 0 <= i < rows.len() ==> rows[i].0@ != d,
    ensures
        dom_row_val(rows, d) == 0,
    decreases rows.len(),
{
    if rows.len() == 0 {
    } else {
        lemma_dom_row_val_absent(rows.drop_last(), d);
    }
}

/// Replacing a row changes its old key's value, its new key's value and the
/// sum accordingly, and leaves every other key's value unchanged.
proof fn lemma_dom_row_update(rows: Seq<(String, usize)>, k: int, v: (String, usize))
    requires
        0 <= k < rows.len(),
    ensures
        forall|d: Seq<char>|
            #[trigger] dom_row_val(rows.update(k, v), d) == dom_row_val(rows, d) + (if v.0@ == d {
                v.1 as int
            } else {
                0
            }) - (if rows[k].0@ == d {
                rows[k].1 as int
            } else {
                0
            }),
        dom_row_sum(rows.update(k, v)) == dom_row_sum(rows) + v.1 - rows[k].1,
    decreases rows.len(),
{
    let rows2 = rows.update(k, v);
    if k == rows.len() - 1 {
        assert(rows2.drop_last() =~= rows.drop_last());
        assert(rows2.last() == v);
    } else {
        lemma_dom_row_update(rows.drop_last(), k, v);
        assert(rows2.drop_last() =~= rows.drop_last().update(k, v));
        assert(rows2.last() == rows.last());
        assert(rows.drop_last()[k] == rows[k]);
        assert forall|d: Seq<char>|
            #[trigger] dom_row_val(rows2, d) == dom_row_val(rows, d) + (if v.0@ == d {
                v.1 as int
            } else {
                0
            }) - (if rows[k].0@ == d {
                rows[k].1 as int
            } else {
                0
            }) by {
            assert(dom_row_val(rows.drop_last().update(k, v), d) == dom_row_val(
                rows.drop_last(),
                d,
            ) + (if v.0@ == d {
                v.1 as int
            } else {
                0
            }) - (if rows[k].0@ == d {
                rows[k].1 as int
            } else {
                0
            }));
            assert(dom_row_val(rows2.drop_last(), d) == dom_row_val(
                rows.drop_last().update(k, v),
                d,
            ));
        }
    }
}

/// The domain counts never exceed the number of records.
proof fn lemma_domain_count_bounded(s: Seq<EntryModel>, sentinel: Timestamp, d: Seq<char>)
    ensures
        0 <= domain_count(s, sentinel, d) <= s.len(),
        0 <= parsed_count(s, sentinel) <= s.len(),
        0 <= unparsed_count(s, sentinel) <= s.len(),
    decreases s.len(),
{
    if s.len() == 0 {
    } else {
        lemma_domain_count_bounded(s.drop_last(), sentinel, d);
    }
}

/// Counts the valid records of `entries` per sender domain, in order of each
/// domain's first appearance, together with how many valid records had an
/// address that does not parse (those are skipped, not dropped silently, and
/// never abort the aggregate).
///
/// Each row's count is exactly the number of valid records with that domain;
/// a domain appears if and only if some valid record carries it; the counts
/// sum to the number of valid records with parseable addresses; records at
/// or before the sentinel count nowhere.
pub fn count_by_domain(entries: &Vec<Entry>, sentinel: Timestamp) -> (r: (
    Vec<(String, usize)>,
    usize,
))
    ensures
        forall|i: int, j: int| 0 <= i < j < r.0@.len() ==> r.0@[i].0@ != r.0@[j].0@,
        forall|k: int|
            0 <= k < r.0@.len() ==> (#[trigger] r.0@[k]).1 as int == domain_count(
                models(entries@),
                sentinel,
                r.0@[k].0@,
            ) && r.0@[k].1 >= 1,
        forall|d: Seq<char>|
            #[trigger] domain_count(models(entries@), sentinel, d) != 0 <==> has_domain(r.0@, d),
        dom_row_sum(r.0@) == parsed_count(models(entries@), sentinel),
        r.1 as int == unparsed_count(models(entries@), sentinel),
{
    let ghost ms = models(entries@);
    let mut rows: Vec<(String, usize)> = Vec::new();
    let mut skipped: usize = 0;
    let mut i: usize = 0;
    #[verifier::loop_isolation(false)]
    while i < entries.len()
        invariant
            i <= entries@.len(),
            forall|p: int, q: int| 0 <= p < q < rows@.len() ==> rows@[p].0@ != rows@[q].0@,
            forall|k: int| 0 <= k < rows@.len() ==> (#[trigger] rows@[k]).1 >= 1,
            forall|d: Seq<char>|
                dom_row_val(rows@, d) == domain_count(ms.take(i as int), sentinel, d),
            dom_row_sum(rows@) == parsed_count(ms.take(i as int), sentinel),
            skipped as int == unparsed_count(ms.take(i as int), sentinel),
        decreases entries@.len() - i,
    {
        let e = &entries[i];
        proof {
            assert(ms.take(i as int + 1).drop_last() =~= ms.take(i as int));
            assert(ms.take(i as int + 1).last() == ms[i as int]);
            lemma_domain_count_bounded(ms.take(i as int), sentinel, Seq::<char>::empty());
        }
        if !e.date.is_at_or_before(&sentinel) {
            match parse_domain(e.from_addr.as_str()) {
                None => {
                    skipped = skipped + 1;
                },
                Some(dom) => {
                    let ghost dv = dom@;
                    proof {
                        lemma_domain_count_bounded(ms.take(i as int), sentinel, dv);
                    }
                    let mut k: usize = 0;
                    while k < rows.len() && !(rows[k].0 == dom)
                        invariant
                            k <= rows@.len(),
                            forall|j: int| 0 <= j < k ==> rows@[j].0@ != dom@,
                        decreases rows@.len() - k,
                    {
                        k += 1;
                    }
                    if k < rows.len() {
                        let ghost before = rows@;
                        let c = rows[k].1;
                        proof {
                            lemma_dom_row_val_at(before, k as int);
                            lemma_dom_row_update(before, k as int, (dom, (c + 1) as usize));
                        }
                        let _replaced = rows.remove(k);
                        rows.insert(k, (dom, c + 1));
                        proof {
                            let v = (dom, (c + 1) as usize);
                            assert(rows@ =~= before.update(k as int, v));
                            assert forall|d: Seq<char>|
                                dom_row_val(rows@, d) == domain_count(
                                    ms.take(i as int + 1),
                                    sentinel,
                                    d,
                                ) by {
                                assert(dom_row_val(before.update(k as int, v), d) == dom_row_val(
                                    before,
                                    d,
                                ) + (if v.0@ == d {
                                    v.1 as int
                                } else {
                                    0
                                }) - (if before[k as int].0@ == d {
                                    before[k as int].1 as int
                                } else {
                                    0
                                }));
                            }
                        }
                    } else {
                        let ghost before = rows@;
                        proof {
                            lemma_dom_row_val_absent(before, dv);
                        }
                        rows.push((dom, 1));
                        proof {
                            assert(rows@.drop_last() =~= before);
                            assert(rows@.last().0@ == dv);
                            assert forall|d: Seq<char>|
                                dom_row_val(rows@, d) == domain_count(
                                    ms.take(i as int + 1),
                                    sentinel,
                                    d,
                                ) by {
                                assert(dom_row_val(rows@, d) == dom_row_val(before, d) + (if dv
                                    == d {
                                    1int
                                } else {
                                    0
                                }));
                            }
                        }
                    }
                },
            }
        }
        i += 1;
    }
    proof {
        assert(ms.take(entries@.len() as int) =~= ms);
        assert forall|d: Seq<char>|
            (#[trigger] domain_count(ms, sentinel, d) != 0 <==> has_domain(rows@, d)) by {
            if forall|k: int| 0 <= k < rows@.len() ==> (#[trigger] rows@[k]).0@ != d {
                lemma_dom_row_val_absent(rows@, d);
            }
            if has_domain(rows@, d) {
                let k = choose|k: int| 0 <= k < rows@.len() && (#[trigger] rows@[k]).0@ == d;
                lemma_dom_row_val_at(rows@, k);
                assert(dom_row_val(rows@, d) == domain_count(ms, sentinel, d));
            }
        }
        assert forall|k: int|
            0 <= k < rows@.len() implies (#[trigger] rows@[k]).1 as int == domain_count(
            ms,
            sentinel,
            rows@[k].0@,
        ) by {
            lemma_dom_row_val_at(rows@, k);
        }
    }
    (rows, skipped)
}

} // verus!
