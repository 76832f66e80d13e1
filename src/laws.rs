//! Properties that hold across operations and across every reachable store.
use crate::handlers::{ids_advance, keeps_terminal};
use crate::index::{bucket_ok, keyed, lemma_bucket_is_scan, scan_ids, status_key, submitter_key};
use crate::store::{Store, category_key};
use crate::types::ReportStatus;
use vstd::prelude::*;

verus! {

/// Index and full scan agree: in every well-formed store (and so after any
/// sequence of operations, and after `rebuild_indexes`), the ids that the status
/// index holds for a status, the category index for a lower-cased category, and
/// the submitter index for an identity, are exactly the ids, in ascending order,
/// that a full scan of the reports selects.
pub proof fn index_equals_scan(store: &Store, s: ReportStatus, c: Seq<char>, u: Seq<u8>)
    requires
        store.wf(),
    ensures
        store.status_ids(s) == scan_ids(store.reports@, keyed(status_key(), s)),
        store.category_ids(c) == scan_ids(store.reports@, keyed(category_key(), c)),
        store.submitter_ids(u) == scan_ids(store.reports@, keyed(submitter_key(), u)),
{
    assert(bucket_ok(store.submitter_ids(u), store.reports@, keyed(submitter_key(), u)));
    lemma_bucket_is_scan(store.submitter_ids(u), store.reports@, keyed(submitter_key(), u));
    assert(bucket_ok(store.status_ids(s), store.reports@, keyed(status_key(), s)));
    lemma_bucket_is_scan(store.status_ids(s), store.reports@, keyed(status_key(), s));
    assert(bucket_ok(store.category_ids(c), store.reports@, keyed(category_key(), c)));
    lemma_bucket_is_scan(store.category_ids(c), store.reports@, keyed(category_key(), c));
}

/// Stores only grow: two steps that each keep records and ids make one that does.
pub proof fn ids_advance_compose(a: &Store, b: &Store, c: &Store)
    requires
        ids_advance(a, b),
        ids_advance(b, c),
    ensures
        ids_advance(a, c),
{
    assert forall|i: int| 0 <= i < a.reports@.len() implies (#[trigger] c.reports@[i]).id
        == a.reports@[i].id by {
        assert(b.reports@[i].id == a.reports@[i].id);
    }
    assert forall|i: int| 0 <= i < a.messages@.len() implies #[trigger] c.messages@[i]
        == a.messages@[i] by {
        assert(b.messages@[i] == a.messages@[i]);
    }
}

/// Ids are never reused: once a report, message or evidence file has been issued
/// id `n` (the store went from `before` to `after` by adding it), every later
/// store issues only ids above `n`, whatever operations ran in between, failed
/// ones included.
pub proof fn issued_ids_increase(before: &Store, after: &Store, later: &Store)
    requires
        ids_advance(after, later),
    ensures
        after.reports@.len() == before.reports@.len() + 1 ==> later.next_report_id()
            > before.next_report_id(),
        after.messages@.len() == before.messages@.len() + 1 ==> later.next_message_id()
            > before.next_message_id(),
        after.evidence_files@.len() == before.evidence_files@.len() + 1
            ==> later.next_evidence_id() > before.next_evidence_id(),
{
}

/// Approved and Rejected are final across any sequence of operations: two steps
/// that each leave terminal reports alone, where the middle store keeps the
/// first one's reports, make one that does too.
pub proof fn terminal_stays_terminal(a: &Store, b: &Store, c: &Store)
    requires
        keeps_terminal(a, b),
        keeps_terminal(b, c),
        b.reports@.len() >= a.reports@.len(),
    ensures
        keeps_terminal(a, c),
{
    assert forall|i: int|
        0 <= i < a.reports@.len() && (#[trigger] a.reports@[i]).status.is_terminal() implies c.reports@[i].status
        == a.reports@[i].status by {
        assert(b.reports@[i].status == a.reports@[i].status);
    }
}

} // verus!
