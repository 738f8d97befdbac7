//! The sync engine: merging reverse-chronological pages of mailbox entries
//! into a deduplicated snapshot, with cutoff-based termination and
//! sentinel-based filtering.
//!
//! The engine itself never performs retrieval: a caller fetches one page at a
//! time and hands it to [`apply_page`], or hands a whole pre-fetched run of
//! pages to [`sync_pages`].  Both are verified against the same mathematical
//! model, [`apply_entries`] and [`apply_pages`].

use vstd::prelude::*;

use crate::record::Entry;
use crate::record::EntryModel;
use crate::record::Timestamp;
use crate::record::models;

verus! {

/// Whether some entry of `s` carries the message id `m`.
pub open spec fn has_id(s: Seq<EntryModel>, m: Seq<char>) -> bool {
    exists|i: int| 0 <= i < s.len() && s[i].message_id == m
}

/// The set of message ids present in `s`.
pub open spec fn ids(s: Seq<EntryModel>) -> Set<Seq<char>> {
    Set::new(|m: Seq<char>| has_id(s, m))
}

/// Why a sync run stopped: the mailbox ran out of entries, or an entry
/// strictly before the cutoff was seen.
#[derive(Clone, Copy, Debug, PartialEq, Eq, Structural)]
pub enum SyncStop {
    Exhausted,
    CutoffReached,
}

/// The model of one page being merged into a snapshot, entry by entry, in
/// page order.  Returns the grown snapshot and whether the cutoff was
/// reached.
///
/// An entry at or before `sentinel` is discarded; one strictly before
/// `cutoff` stops the run at once, discarding the rest of the page; one whose
/// message id is already present is skipped; any other is appended.
pub open spec fn apply_entries(
    snap: Seq<EntryModel>,
    page: Seq<EntryModel>,
    cutoff: Timestamp,
    sentinel: Timestamp,
) -> (Seq<EntryModel>, bool)
    decreases page.len(),
{
    if page.len() == 0 {
        (snap, false)
    } else {
        let e = page[0];
        if e.date.spec_le(sentinel) {
            apply_entries(snap, page.drop_first(), cutoff, sentinel)
        } else if e.date.spec_lt(cutoff) {
            (snap, true)
        } else if has_id(snap, e.message_id) {
            apply_entries(snap, page.drop_first(), cutoff, sentinel)
        } else {
            apply_entries(snap.push(e), page.drop_first(), cutoff, sentinel)
        }
    }
}

/// The model of a whole run: pages are merged in order until an empty page
/// (exhausted) or a sub-cutoff entry (cutoff reached) appears; running past
/// the last given page also counts as exhaustion.
pub open spec fn apply_pages(
    snap: Seq<EntryModel>,
    pages: Seq<Seq<EntryModel>>,
    cutoff: Timestamp,
    sentinel: Timestamp,
) -> (Seq<EntryModel>, SyncStop)
    decreases pages.len(),
{
    if pages.len() == 0 || pages[0].len() == 0 {
        (snap, SyncStop::Exhausted)
    } else {
        let r = apply_entries(snap, pages[0], cutoff, sentinel);
        if r.1 {
            (r.0, SyncStop::CutoffReached)
        } else {
            apply_pages(r.0, pages.drop_first(), cutoff, sentinel)
        }
    }
}

/// The ghost shape of a run of pages.
pub open spec fn page_models(ps: Seq<Vec<Entry>>) -> Seq<Seq<EntryModel>> {
    ps.map_values(|p: Vec<Entry>| models(p@))
}

/// Whether `snap`'s entries carry pairwise distinct message ids.
pub open spec fn distinct_ids(snap: Seq<EntryModel>) -> bool {
    forall|i: int, j: int|
        0 <= i < j < snap.len() ==> snap[i].message_id != snap[j].message_id
}

/// Whether some entry of `snap` carries the message id of `message_id`.
pub fn contains_id(snap: &Vec<Entry>, message_id: &String) -> (r: bool)
    ensures
        r == has_id(models(snap@), message_id@),
{
    let mut i: usize = 0;
    while i < snap.len()
        invariant
            0 <= i <= snap@.len(),
            forall|j: int| 0 <= j < i ==> models(snap@)[j].message_id != message_id@,
        decreases snap@.len() - i,
    {
        if snap[i].message_id == *message_id {
            proof {
                assert(models(snap@)[i as int].message_id == message_id@);
            }
            return true;
        }
        i += 1;
    }
    false
}

/// Merges one retrieved page into the snapshot, in page order, and reports
/// whether an entry strictly before the cutoff was seen (in which case the
/// rest of the page was discarded and no further page should be requested).
pub fn apply_page(
    snap: &mut Vec<Entry>,
    page: &Vec<Entry>,
    cutoff: Timestamp,
    sentinel: Timestamp,
) -> (cutoff_reached: bool)
    ensures
        models(final(snap)@) == apply_entries(models(old(snap)@), models(page@), cutoff, sentinel).0,
        cutoff_reached == apply_entries(models(old(snap)@), models(page@), cutoff, sentinel).1,
{
    let ghost snap0 = models(snap@);
    let ghost pm = models(page@);
    proof {
        assert(pm.skip(0) =~= pm);
    }
    let mut k: usize = 0;
    #[verifier::loop_isolation(false)]
    while k < page.len()
        invariant
            0 <= k <= page@.len(),
            pm == models(page@),
            apply_entries(snap0, pm, cutoff, sentinel)
                == apply_entries(models(snap@), pm.skip(k as int), cutoff, sentinel),
        decreases page@.len() - k,
    {
        let e = &page[k];
        proof {
            assert(pm.skip(k as int)[0] == pm[k as int]);
            assert(pm[k as int] == page@[k as int]@);
            assert(pm.skip(k as int).drop_first() =~= pm.skip(k as int + 1));
        }
        if e.date.is_at_or_before(&sentinel) {
            // corrupt entry: discard
        } else if e.date.is_before(&cutoff) {
            proof {
                assert(apply_entries(models(snap@), pm.skip(k as int), cutoff, sentinel) == (
                    models(snap@),
                    true,
                ));
            }
            return true;
        } else if contains_id(snap, &e.message_id) {
            // already present from a prior run or an earlier page: skip
        } else {
            let ghost before = models(snap@);
            snap.push(e.clone());
            proof {
                assert(models(snap@) =~= before.push(pm[k as int]));
            }
        }
        k += 1;
    }
    proof {
        assert(pm.skip(page@.len() as int) =~= Seq::<EntryModel>::empty());
        assert(apply_entries(models(snap@), pm.skip(page@.len() as int), cutoff, sentinel) == (
            models(snap@),
            false,
        ));
    }
    false
}

/// Runs the whole sync against a pre-fetched run of pages: merges pages in
/// order until an empty page or a sub-cutoff entry appears, or the given
/// pages run out.
pub fn sync_pages(
    initial: Vec<Entry>,
    pages: &Vec<Vec<Entry>>,
    cutoff: Timestamp,
    sentinel: Timestamp,
) -> (r: (Vec<Entry>, SyncStop))
    ensures
        models(r.0@) == apply_pages(models(initial@), page_models(pages@), cutoff, sentinel).0,
        r.1 == apply_pages(models(initial@), page_models(pages@), cutoff, sentinel).1,
{
    let ghost snap0 = models(initial@);
    let ghost psm = page_models(pages@);
    let mut snap = initial;
    proof {
        assert(psm.skip(0) =~= psm);
    }
    let mut i: usize = 0;
    #[verifier::loop_isolation(false)]
    while i < pages.len()
        invariant
            0 <= i <= pages@.len(),
            psm == page_models(pages@),
            apply_pages(snap0, psm, cutoff, sentinel)
                == apply_pages(models(snap@), psm.skip(i as int), cutoff, sentinel),
        decreases pages@.len() - i,
    {
        let page = &pages[i];
        proof {
            assert(psm.skip(i as int)[0] == psm[i as int]);
            assert(psm[i as int] == models(pages@[i as int]@));
            assert(psm.skip(i as int).drop_first() =~= psm.skip(i as int + 1));
        }
        if page.len() == 0 {
            proof {
                assert(psm[i as int].len() == 0);
                assert(apply_pages(models(snap@), psm.skip(i as int), cutoff, sentinel) == (
                    models(snap@),
                    SyncStop::Exhausted,
                ));
            }
            return (snap, SyncStop::Exhausted);
        }
        let ghost s_before = models(snap@);
        let cutoff_reached = apply_page(&mut snap, page, cutoff, sentinel);
        proof {
            assert(apply_entries(s_before, psm[i as int], cutoff, sentinel).0 == models(snap@));
            assert(apply_entries(s_before, psm[i as int], cutoff, sentinel).1 == cutoff_reached);
        }
        if cutoff_reached {
            proof {
                assert(apply_pages(s_before, psm.skip(i as int), cutoff, sentinel) == (
                    models(snap@),
                    SyncStop::CutoffReached,
                ));
            }
            return (snap, SyncStop::CutoffReached);
        }
        proof {
            assert(apply_pages(s_before, psm.skip(i as int), cutoff, sentinel) == apply_pages(
                models(snap@),
                psm.skip(i as int + 1),
                cutoff,
                sentinel,
            ));
        }
        i += 1;
    }
    proof {
        assert(psm.skip(pages@.len() as int) =~= Seq::<Seq<EntryModel>>::empty());
        assert(apply_pages(models(snap@), psm.skip(pages@.len() as int), cutoff, sentinel) == (
            models(snap@),
            SyncStop::Exhausted,
        ));
    }
    (snap, SyncStop::Exhausted)
}

/// The cutoff a run works with: the given "now", moved back by the lookback
/// window, clamped at the representable minimum.
pub open spec fn cutoff_epoch(now: Timestamp, lookback_days: u64) -> int {
    let t = now.epoch_secs - (lookback_days as int) * 86400;
    if t < i64::MIN {
        i64::MIN as int
    } else {
        t
    }
}

/// Computes the run's cutoff: `now` minus the lookback window, in the same
/// offset as `now`.
pub fn compute_cutoff(now: Timestamp, lookback_days: u64) -> (r: Timestamp)
    ensures
        r.epoch_secs == cutoff_epoch(now, lookback_days),
        r.offset_secs == now.offset_secs,
{
    let prod: i128 = (lookback_days as i128) * 86400;
    let t: i128 = (now.epoch_secs as i128) - prod;
    if t < (i64::MIN as i128) {
        Timestamp { epoch_secs: i64::MIN, offset_secs: now.offset_secs }
    } else {
        Timestamp { epoch_secs: t as i64, offset_secs: now.offset_secs }
    }
}

/// Merging a page only appends: the prior snapshot stays as a prefix
/// (retention), and every appended entry is at or after the cutoff and
/// strictly after the sentinel.
pub proof fn lemma_apply_entries_appends(
    snap: Seq<EntryModel>,
    page: Seq<EntryModel>,
    cutoff: Timestamp,
    sentinel: Timestamp,
)
    ensures
        ({
            let r = apply_entries(snap, page, cutoff, sentinel).0;
            &&& r.len() >= snap.len()
            &&& r.take(snap.len() as int) == snap
            &&& forall|i: int|
                snap.len() <= i < r.len() ==> !(#[trigger] r[i]).date.spec_lt(cutoff)
                    && !r[i].date.spec_le(sentinel)
        }),
    decreases page.len(),
{
    if page.len() == 0 {
        assert(snap.take(snap.len() as int) =~= snap);
    } else {
        let e = page[0];
        if e.date.spec_le(sentinel) {
            lemma_apply_entries_appends(snap, page.drop_first(), cutoff, sentinel);
        } else if e.date.spec_lt(cutoff) {
            assert(snap.take(snap.len() as int) =~= snap);
        } else if has_id(snap, e.message_id) {
            lemma_apply_entries_appends(snap, page.drop_first(), cutoff, sentinel);
        } else {
            lemma_apply_entries_appends(snap.push(e), page.drop_first(), cutoff, sentinel);
            let r = apply_entries(snap.push(e), page.drop_first(), cutoff, sentinel).0;
            assert(r.take(snap.len() as int) =~= r.take(snap.push(e).len() as int).take(
                snap.len() as int,
            ));
            assert(snap.push(e).take(snap.len() as int) =~= snap);
            assert forall|i: int| snap.len() <= i < r.len() implies !(#[trigger] r[i]).date.spec_lt(
                cutoff,
            ) && !r[i].date.spec_le(sentinel) by {
                if i == snap.len() {
                    assert(r[i] == r.take(snap.push(e).len() as int)[i]);
                    assert(r[i] == e);
                }
            }
        }
    }
}

/// Every message id of the snapshot survives a page merge.
pub proof fn lemma_apply_entries_keeps_ids(
    snap: Seq<EntryModel>,
    page: Seq<EntryModel>,
    cutoff: Timestamp,
    sentinel: Timestamp,
)
    ensures
        forall|m: Seq<char>|
            has_id(snap, m) ==> has_id(apply_entries(snap, page, cutoff, sentinel).0, m),
{
    lemma_apply_entries_appends(snap, page, cutoff, sentinel);
    let r = apply_entries(snap, page, cutoff, sentinel).0;
    assert forall|m: Seq<char>| has_id(snap, m) implies has_id(r, m) by {
        let i = choose|i: int| 0 <= i < snap.len() && snap[i].message_id == m;
        assert(r[i] == r.take(snap.len() as int)[i]);
    }
}

/// A page whose surviving message ids are all already present in `bigger`
/// merges into `bigger` as a no-op, stopping exactly as it did against
/// `snap`.
proof fn lemma_apply_entries_absorbed(
    snap: Seq<EntryModel>,
    bigger: Seq<EntryModel>,
    page: Seq<EntryModel>,
    cutoff: Timestamp,
    sentinel: Timestamp,
)
    requires
        forall|m: Seq<char>|
            has_id(apply_entries(snap, page, cutoff, sentinel).0, m) ==> has_id(bigger, m),
    ensures
        apply_entries(bigger, page, cutoff, sentinel) == (
            bigger,
            apply_entries(snap, page, cutoff, sentinel).1,
        ),
    decreases page.len(),
{
    if page.len() == 0 {
    } else {
        let e = page[0];
        if e.date.spec_le(sentinel) {
            lemma_apply_entries_absorbed(snap, bigger, page.drop_first(), cutoff, sentinel);
        } else if e.date.spec_lt(cutoff) {
        } else {
            let base = if has_id(snap, e.message_id) {
                snap
            } else {
                snap.push(e)
            };
            // either way, e's id is in the merged result, hence in `bigger`
            lemma_apply_entries_keeps_ids(base, page.drop_first(), cutoff, sentinel);
            assert(has_id(base, e.message_id)) by {
                if !has_id(snap, e.message_id) {
                    assert(base[snap.len() as int].message_id == e.message_id);
                }
            }
            assert(has_id(bigger, e.message_id));
            lemma_apply_entries_absorbed(base, bigger, page.drop_first(), cutoff, sentinel);
        }
    }
}

/// A whole run only appends: the prior snapshot stays as a prefix, and every
/// appended entry is at or after the cutoff and strictly after the sentinel.
///
/// This is the cutoff-correctness statement: the cutoff filters ingestion,
/// never retention, and nothing at or before the sentinel is ever ingested.
pub proof fn lemma_apply_pages_appends(
    snap: Seq<EntryModel>,
    pages: Seq<Seq<EntryModel>>,
    cutoff: Timestamp,
    sentinel: Timestamp,
)
    ensures
        ({
            let r = apply_pages(snap, pages, cutoff, sentinel).0;
            &&& r.len() >= snap.len()
            &&& r.take(snap.len() as int) == snap
            &&& forall|i: int|
                snap.len() <= i < r.len() ==> !(#[trigger] r[i]).date.spec_lt(cutoff)
                    && !r[i].date.spec_le(sentinel)
        }),
    decreases pages.len(),
{
    if pages.len() == 0 || pages[0].len() == 0 {
        assert(snap.take(snap.len() as int) =~= snap);
    } else {
        let a = apply_entries(snap, pages[0], cutoff, sentinel);
        lemma_apply_entries_appends(snap, pages[0], cutoff, sentinel);
        if a.1 {
        } else {
            lemma_apply_pages_appends(a.0, pages.drop_first(), cutoff, sentinel);
            let r = apply_pages(a.0, pages.drop_first(), cutoff, sentinel).0;
            assert(r.take(snap.len() as int) =~= r.take(a.0.len() as int).take(snap.len() as int));
            assert forall|i: int| snap.len() <= i < r.len() implies !(#[trigger] r[i]).date.spec_lt(
                cutoff,
            ) && !r[i].date.spec_le(sentinel) by {
                if i < a.0.len() {
                    assert(r[i] == r.take(a.0.len() as int)[i]);
                }
            }
        }
    }
}

/// Every message id of the snapshot survives a whole run.
pub proof fn lemma_apply_pages_keeps_ids(
    snap: Seq<EntryModel>,
    pages: Seq<Seq<EntryModel>>,
    cutoff: Timestamp,
    sentinel: Timestamp,
)
    ensures
        forall|m: Seq<char>|
            has_id(snap, m) ==> has_id(apply_pages(snap, pages, cutoff, sentinel).0, m),
{
    lemma_apply_pages_appends(snap, pages, cutoff, sentinel);
    let r = apply_pages(snap, pages, cutoff, sentinel).0;
    assert forall|m: Seq<char>| has_id(snap, m) implies has_id(r, m) by {
        let i = choose|i: int| 0 <= i < snap.len() && snap[i].message_id == m;
        assert(r[i] == r.take(snap.len() as int)[i]);
    }
}

/// Dedup correctness: running the sync twice against identical mailbox
/// responses is the same as running it once — the second run changes neither
/// the snapshot nor the stop reason, so in particular the set of message ids
/// is the same.
pub proof fn lemma_sync_idempotent(
    snap: Seq<EntryModel>,
    pages: Seq<Seq<EntryModel>>,
    cutoff: Timestamp,
    sentinel: Timestamp,
)
    ensures
        ({
            let r = apply_pages(snap, pages, cutoff, sentinel);
            &&& apply_pages(r.0, pages, cutoff, sentinel) == r
            &&& ids(apply_pages(r.0, pages, cutoff, sentinel).0) == ids(r.0)
        }),
    decreases pages.len(),
{
    let r = apply_pages(snap, pages, cutoff, sentinel);
    if pages.len() == 0 || pages[0].len() == 0 {
    } else {
        let a = apply_entries(snap, pages[0], cutoff, sentinel);
        if a.1 {
            lemma_apply_entries_absorbed(snap, a.0, pages[0], cutoff, sentinel);
        } else {
            lemma_sync_idempotent(a.0, pages.drop_first(), cutoff, sentinel);
            // page 0 merges into the final snapshot as a no-op
            lemma_apply_pages_keeps_ids(a.0, pages.drop_first(), cutoff, sentinel);
            lemma_apply_entries_absorbed(snap, r.0, pages[0], cutoff, sentinel);
        }
    }
}

/// Sentinel exclusion for the snapshot: an entry at or before the sentinel
/// that is not already in the snapshot never appears in the result of a run.
pub proof fn lemma_sentinel_excluded(
    snap: Seq<EntryModel>,
    pages: Seq<Seq<EntryModel>>,
    cutoff: Timestamp,
    sentinel: Timestamp,
    e: EntryModel,
)
    requires
        e.date.spec_le(sentinel),
        forall|i: int| 0 <= i < snap.len() ==> snap[i] != e,
    ensures
        forall|i: int|
            0 <= i < apply_pages(snap, pages, cutoff, sentinel).0.len()
                ==> apply_pages(snap, pages, cutoff, sentinel).0[i] != e,
{
    lemma_apply_pages_appends(snap, pages, cutoff, sentinel);
    let r = apply_pages(snap, pages, cutoff, sentinel).0;
    assert forall|i: int| 0 <= i < r.len() implies r[i] != e by {
        if i < snap.len() {
            assert(r[i] == r.take(snap.len() as int)[i]);
        }
    }
}

/// A run preserves distinctness of message ids: if the prior snapshot is
/// deduplicated, so is the merged one.
pub proof fn lemma_apply_entries_distinct(
    snap: Seq<EntryModel>,
    page: Seq<EntryModel>,
    cutoff: Timestamp,
    sentinel: Timestamp,
)
    requires
        distinct_ids(snap),
    ensures
        distinct_ids(apply_entries(snap, page, cutoff, sentinel).0),
    decreases page.len(),
{
    if page.len() == 0 {
    } else {
        let e = page[0];
        if e.date.spec_le(sentinel) {
            lemma_apply_entries_distinct(snap, page.drop_first(), cutoff, sentinel);
        } else if e.date.spec_lt(cutoff) {
        } else if has_id(snap, e.message_id) {
            lemma_apply_entries_distinct(snap, page.drop_first(), cutoff, sentinel);
        } else {
            assert(distinct_ids(snap.push(e)));
            lemma_apply_entries_distinct(snap.push(e), page.drop_first(), cutoff, sentinel);
        }
    }
}

/// A whole run preserves distinctness of message ids.
pub proof fn lemma_apply_pages_distinct(
    snap: Seq<EntryModel>,
    pages: Seq<Seq<EntryModel>>,
    cutoff: Timestamp,
    sentinel: Timestamp,
)
    requires
        distinct_ids(snap),
    ensures
        distinct_ids(apply_pages(snap, pages, cutoff, sentinel).0),
    decreases pages.len(),
{
    if pages.len() == 0 || pages[0].len() == 0 {
    } else {
        let a = apply_entries(snap, pages[0], cutoff, sentinel);
        lemma_apply_entries_distinct(snap, pages[0], cutoff, sentinel);
        if a.1 {
        } else {
            lemma_apply_pages_distinct(a.0, pages.drop_first(), cutoff, sentinel);
        }
    }
}

} // verus!
