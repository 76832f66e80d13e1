//! The record store: reports, users, authorities, messages, evidence, and the
//! three report indexes (by status, by lower-cased category, by submitter).
use crate::index::{
    Bucket, bucket_ok, buckets_wf, ids_dense, ids_for, index_insert, index_ok, index_remove,
    keyed, lemma_bucket_is_scan, lemma_bucket_push, lemma_bucket_update, lemma_ids_for_increasing,
    position_of, scan_ids, status_key, submitter_key, has_key, strictly_increasing,
};
use crate::text::{lower_of, lowercase};
use crate::types::{
    Authority, AuthorityStats, EngineError, EvidenceFile, Identity, IpfsConfig, Message, Missing,
    Report, ReportStatus, User,
};
use vstd::prelude::*;

verus! {

pub open spec fn category_key() -> spec_fn(Report) -> Seq<char> {
    |r: Report| lower_of(r.category@)
}

/// The store. Report, message and evidence ids are positions plus one: they
/// start at 1, grow by one per record, and are never reused.
pub struct Store {
    pub reports: Vec<Report>,
    pub users: Vec<User>,
    pub authorities: Vec<Authority>,
    pub messages: Vec<Message>,
    pub evidence_files: Vec<EvidenceFile>,
    pub ipfs_config: Option<IpfsConfig>,
    pub status_index: Vec<Bucket<ReportStatus>>,
    pub category_index: Vec<Bucket<String>>,
    pub submitter_index: Vec<Bucket<Identity>>,
    pub stats: AuthorityStats,
}

pub open spec fn messages_dense(ms: Seq<Message>) -> bool {
    forall|i: int| 0 <= i < ms.len() ==> (#[trigger] ms[i]).id == i + 1
}

pub open spec fn evidence_dense(es: Seq<EvidenceFile>) -> bool {
    forall|i: int| 0 <= i < es.len() ==> (#[trigger] es[i]).id == i + 1
}

pub open spec fn users_distinct(us: Seq<User>) -> bool {
    forall|a: int, b: int|
        0 <= a < us.len() && 0 <= b < us.len() && a != b ==> (#[trigger] us[a]).id@ != (
        #[trigger] us[b]).id@
}

pub open spec fn authorities_distinct(aus: Seq<Authority>) -> bool {
    forall|a: int, b: int|
        0 <= a < aus.len() && 0 <= b < aus.len() && a != b ==> (#[trigger] aus[a]).id@ != (
        #[trigger] aus[b]).id@
}

/// The indexes agree with the reports.
pub open spec fn indexes_ok(
    rs: Seq<Report>,
    st: Seq<Bucket<ReportStatus>>,
    cat: Seq<Bucket<String>>,
    sub: Seq<Bucket<Identity>>,
) -> bool {
    &&& index_ok(st, rs, status_key())
    &&& index_ok(cat, rs, category_key())
    &&& index_ok(sub, rs, submitter_key())
}

pub open spec fn user_at(us: Seq<User>, id: Seq<u8>, i: int) -> bool {
    0 <= i < us.len() && us[i].id@ == id
}

pub open spec fn has_user(us: Seq<User>, id: Seq<u8>) -> bool {
    exists|i: int| #[trigger] user_at(us, id, i)
}

/// The record of user `id`; meaningful where `has_user(us, id)`.
pub open spec fn user_of(us: Seq<User>, id: Seq<u8>) -> User {
    us[choose|i: int| #[trigger] user_at(us, id, i)]
}

pub open spec fn authority_at(aus: Seq<Authority>, id: Seq<u8>, i: int) -> bool {
    0 <= i < aus.len() && aus[i].id@ == id
}

pub open spec fn has_authority(aus: Seq<Authority>, id: Seq<u8>) -> bool {
    exists|i: int| #[trigger] authority_at(aus, id, i)
}

pub open spec fn authority_of(aus: Seq<Authority>, id: Seq<u8>) -> Authority {
    aus[choose|i: int| #[trigger] authority_at(aus, id, i)]
}

/// Sum of what the users hold: free balance, active stakes and lost stakes.
pub open spec fn ledger_value(us: Seq<User>) -> int
    decreases us.len(),
{
    if us.len() == 0 {
        0
    } else {
        ledger_value(us.drop_last()) + us.last().value()
    }
}

pub proof fn lemma_ledger_push(us: Seq<User>, u: User)
    ensures
        ledger_value(us.push(u)) == ledger_value(us) + u.value(),
{
    assert(us.push(u).drop_last() =~= us);
}

pub proof fn lemma_ledger_update(us: Seq<User>, i: int, u: User)
    requires
        0 <= i < us.len(),
    ensures
        ledger_value(us.update(i, u)) == ledger_value(us) - us[i].value() + u.value(),
    decreases us.len(),
{
    let us2 = us.update(i, u);
    if i == us.len() - 1 {
        assert(us2.drop_last() =~= us.drop_last());
    } else {
        assert(us2.drop_last() =~= us.drop_last().update(i, u));
        lemma_ledger_update(us.drop_last(), i, u);
    }
}

impl Report {
    /// This report with another id.
    pub open spec fn with_id(self, id: u64) -> Report {
        Report { id, ..self }
    }
}

impl Store {
    pub open spec fn wf(&self) -> bool {
        &&& self.records_wf()
        &&& indexes_ok(
            self.reports@,
            self.status_index@,
            self.category_index@,
            self.submitter_index@,
        )
    }

    /// Everything but the indexes is in order.
    pub open spec fn records_wf(&self) -> bool {
        &&& ids_dense(self.reports@)
        &&& forall|i: int| 0 <= i < self.reports@.len() ==> (#[trigger] self.reports@[i]).consistent()
        &&& self.reports@.len() < u64::MAX
        &&& messages_dense(self.messages@)
        &&& self.messages@.len() < u64::MAX
        &&& evidence_dense(self.evidence_files@)
        &&& self.evidence_files@.len() < u64::MAX
        &&& users_distinct(self.users@)
        &&& authorities_distinct(self.authorities@)
    }

    /// Apart from the reports and their indexes, `self` and `o` hold the same.
    pub open spec fn same_but_reports(&self, o: &Store) -> bool {
        &&& self.users@ == o.users@
        &&& self.authorities@ == o.authorities@
        &&& self.messages@ == o.messages@
        &&& self.evidence_files@ == o.evidence_files@
        &&& self.ipfs_config == o.ipfs_config
        &&& self.stats == o.stats
    }

    /// The id that the next report will get.
    pub open spec fn next_report_id(&self) -> int {
        (self.reports@.len() + 1) as int
    }

    pub open spec fn next_message_id(&self) -> int {
        (self.messages@.len() + 1) as int
    }

    pub open spec fn next_evidence_id(&self) -> int {
        (self.evidence_files@.len() + 1) as int
    }

    /// The ids of the reports with status `s`, as the status index holds them.
    pub open spec fn status_ids(&self, s: ReportStatus) -> Seq<u64> {
        ids_for(self.status_index@, s)
    }

    /// The ids of the reports whose lower-cased category is `c`, as the category index holds them.
    pub open spec fn category_ids(&self, c: Seq<char>) -> Seq<u64> {
        ids_for(self.category_index@, c)
    }

    /// The ids of the reports of submitter `u`, as the submitter index holds them.
    pub open spec fn submitter_ids(&self, u: Seq<u8>) -> Seq<u64> {
        ids_for(self.submitter_index@, u)
    }

    /// An empty store.
    pub fn new() -> (r: Store)
        ensures
            r.wf(),
            r.reports@.len() == 0,
            r.users@.len() == 0,
            r.authorities@.len() == 0,
            r.messages@.len() == 0,
            r.evidence_files@.len() == 0,
            r.ipfs_config.is_none(),
            r.stats == (AuthorityStats {
                reports_pending: 0,
                reports_verified: 0,
                reports_rejected: 0,
                total_rewards_distributed: 0,
            }),
    {
        let r = Store {
            reports: Vec::new(),
            users: Vec::new(),
            authorities: Vec::new(),
            messages: Vec::new(),
            evidence_files: Vec::new(),
            ipfs_config: None,
            status_index: Vec::new(),
            category_index: Vec::new(),
            submitter_index: Vec::new(),
            stats: AuthorityStats {
                reports_pending: 0,
                reports_verified: 0,
                reports_rejected: 0,
                total_rewards_distributed: 0,
            },
        };
        proof {
            lemma_empty_index(r.status_index@, r.reports@, status_key());
            lemma_empty_index(r.category_index@, r.reports@, category_key());
            lemma_empty_index(r.submitter_index@, r.reports@, submitter_key());
        }
        r
    }
}

pub proof fn lemma_empty_index<K: View>(
    bs: Seq<Bucket<K>>,
    rs: Seq<Report>,
    key_of: spec_fn(Report) -> K::V,
)
    requires
        bs.len() == 0,
        rs.len() == 0,
    ensures
        index_ok(bs, rs, key_of),
{
    assert forall|k: K::V| #[trigger] bucket_ok(ids_for(bs, k), rs, keyed(key_of, k)) by {
        assert(!has_key(bs, k));
    }
}

/// In a correct bucket, record `i` is listed exactly when it is selected.
pub proof fn lemma_bucket_member(ids: Seq<u64>, rs: Seq<Report>, p: spec_fn(Report) -> bool, i: int)
    requires
        bucket_ok(ids, rs, p),
        ids_dense(rs),
        0 <= i < rs.len(),
        rs.len() < u64::MAX,
    ensures
        ids.contains((i + 1) as u64) <==> p(rs[i]),
{
    if ids.contains((i + 1) as u64) {
        let k = choose|k: int| 0 <= k < ids.len() && ids[k] == (i + 1) as u64;
        assert(p(rs[ids[k] - 1]));
    }
}

/// An index stays correct when record `i` is replaced, given the new memberships.
pub proof fn lemma_index_update<K: View>(
    bs: Seq<Bucket<K>>,
    bs2: Seq<Bucket<K>>,
    rs: Seq<Report>,
    i: int,
    r: Report,
    key_of: spec_fn(Report) -> K::V,
)
    requires
        index_ok(bs, rs, key_of),
        ids_dense(rs),
        0 <= i < rs.len(),
        rs.len() < u64::MAX,
        buckets_wf(bs2),
        forall|k: K::V, y: u64| #[trigger]
            ids_for(bs2, k).contains(y) <==> (if y == i + 1 {
                key_of(r) == k
            } else {
                ids_for(bs, k).contains(y)
            }),
    ensures
        index_ok(bs2, rs.update(i, r), key_of),
{
    assert forall|k: K::V| #[trigger]
        bucket_ok(ids_for(bs2, k), rs.update(i, r), keyed(key_of, k)) by {
        lemma_ids_for_increasing(bs2, k);
        assert(bucket_ok(ids_for(bs, k), rs, keyed(key_of, k)));
        lemma_bucket_update(ids_for(bs, k), ids_for(bs2, k), rs, i, r, keyed(key_of, k));
    }
}

/// An index stays correct when a record is appended, given the new memberships.
pub proof fn lemma_index_push<K: View>(
    bs: Seq<Bucket<K>>,
    bs2: Seq<Bucket<K>>,
    rs: Seq<Report>,
    r: Report,
    key_of: spec_fn(Report) -> K::V,
)
    requires
        index_ok(bs, rs, key_of),
        rs.len() < u64::MAX,
        buckets_wf(bs2),
        forall|k: K::V, y: u64| #[trigger]
            ids_for(bs2, k).contains(y) <==> (if y == rs.len() + 1 {
                key_of(r) == k
            } else {
                ids_for(bs, k).contains(y)
            }),
    ensures
        index_ok(bs2, rs.push(r), key_of),
{
    assert forall|k: K::V| #[trigger] bucket_ok(ids_for(bs2, k), rs.push(r), keyed(key_of, k)) by {
        lemma_ids_for_increasing(bs2, k);
        assert(bucket_ok(ids_for(bs, k), rs, keyed(key_of, k)));
        lemma_bucket_push(ids_for(bs, k), ids_for(bs2, k), rs, r, keyed(key_of, k));
    }
}

/// No id beyond the last report is in any bucket.
pub proof fn lemma_fresh_id_absent<K: View>(
    bs: Seq<Bucket<K>>,
    rs: Seq<Report>,
    key_of: spec_fn(Report) -> K::V,
    k: K::V,
)
    requires
        index_ok(bs, rs, key_of),
        rs.len() < u64::MAX,
    ensures
        !ids_for(bs, k).contains((rs.len() + 1) as u64),
{
    let ids = ids_for(bs, k);
    assert(bucket_ok(ids, rs, keyed(key_of, k)));
    if ids.contains((rs.len() + 1) as u64) {
        let m = choose|m: int| 0 <= m < ids.len() && ids[m] == (rs.len() + 1) as u64;
        assert(ids[m] <= rs.len());
    }
}

/// A correct index stays correct when a record with key `key` is appended and
/// its id filed under `key`.
pub proof fn lemma_index_after_insert<K: View>(
    bs: Seq<Bucket<K>>,
    bs2: Seq<Bucket<K>>,
    rs: Seq<Report>,
    r: Report,
    key_of: spec_fn(Report) -> K::V,
    key: K::V,
)
    requires
        index_ok(bs, rs, key_of),
        rs.len() < u64::MAX,
        buckets_wf(bs2),
        key_of(r) == key,
        forall|k: K::V| k != key ==> #[trigger] ids_for(bs2, k) == ids_for(bs, k),
        forall|y: u64| #[trigger]
            ids_for(bs2, key).contains(y) <==> (ids_for(bs, key).contains(y) || y == rs.len()
                + 1),
    ensures
        index_ok(bs2, rs.push(r), key_of),
{
    assert forall|k: K::V, y: u64| #[trigger]
        ids_for(bs2, k).contains(y) <==> (if y == rs.len() + 1 {
            key_of(r) == k
        } else {
            ids_for(bs, k).contains(y)
        }) by {
        lemma_fresh_id_absent(bs, rs, key_of, k);
    }
    lemma_index_push(bs, bs2, rs, r, key_of);
}

/// A correct index stays correct when record `i` changes key and its id moves along.
pub proof fn lemma_index_after_move<K: View>(
    bs: Seq<Bucket<K>>,
    bs2: Seq<Bucket<K>>,
    rs: Seq<Report>,
    i: int,
    r: Report,
    key_of: spec_fn(Report) -> K::V,
)
    requires
        index_ok(bs, rs, key_of),
        ids_dense(rs),
        0 <= i < rs.len(),
        rs.len() < u64::MAX,
        buckets_wf(bs2),
        key_of(rs[i]) != key_of(r),
        moved(bs, bs2, key_of(rs[i]), key_of(r), (i + 1) as u64),
    ensures
        index_ok(bs2, rs.update(i, r), key_of),
{
    assert forall|k: K::V, y: u64| #[trigger]
        ids_for(bs2, k).contains(y) <==> (if y == i + 1 {
            key_of(r) == k
        } else {
            ids_for(bs, k).contains(y)
        }) by {
        assert(bucket_ok(ids_for(bs, k), rs, keyed(key_of, k)));
        lemma_bucket_member(ids_for(bs, k), rs, keyed(key_of, k), i);
    }
    lemma_index_update(bs, bs2, rs, i, r, key_of);
}

/// A correct index needs no change when record `i` keeps its key.
pub proof fn lemma_index_same_key<K: View>(
    bs: Seq<Bucket<K>>,
    rs: Seq<Report>,
    i: int,
    r: Report,
    key_of: spec_fn(Report) -> K::V,
)
    requires
        index_ok(bs, rs, key_of),
        ids_dense(rs),
        0 <= i < rs.len(),
        rs.len() < u64::MAX,
        key_of(rs[i]) == key_of(r),
    ensures
        index_ok(bs, rs.update(i, r), key_of),
{
    assert forall|k: K::V, y: u64| #[trigger]
        ids_for(bs, k).contains(y) <==> (if y == i + 1 {
            key_of(r) == k
        } else {
            ids_for(bs, k).contains(y)
        }) by {
        assert(bucket_ok(ids_for(bs, k), rs, keyed(key_of, k)));
        lemma_bucket_member(ids_for(bs, k), rs, keyed(key_of, k), i);
    }
    lemma_index_update(bs, bs, rs, i, r, key_of);
}

/// Files report `id` (at the end of `rs`) in all three indexes.
fn index_new_report(
    st: &mut Vec<Bucket<ReportStatus>>,
    cat: &mut Vec<Bucket<String>>,
    sub: &mut Vec<Bucket<Identity>>,
    rs: Ghost<Seq<Report>>,
    r: &Report,
)
    requires
        indexes_ok(rs@, old(st)@, old(cat)@, old(sub)@),
        rs@.len() < u64::MAX,
        r.id == rs@.len() + 1,
    ensures
        indexes_ok(rs@.push(*r), final(st)@, final(cat)@, final(sub)@),
{
    let id = r.id;
    let ghost s0 = st@;
    let ghost c0 = cat@;
    let ghost u0 = sub@;
    proof {
        lemma_fresh_id_absent(s0, rs@, status_key(), r.status);
    }
    let sp = find_status_bucket(st, r.status);
    index_insert(st, sp, r.status, id);
    proof {
        assert(r.status@ == r.status);
        lemma_index_after_insert(s0, st@, rs@, *r, status_key(), r.status);
    }
    let ck = lowercase(r.category.as_str());
    proof {
        lemma_fresh_id_absent(c0, rs@, category_key(), ck@);
    }
    let cp = find_category_bucket(cat, &ck);
    index_insert(cat, cp, ck, id);
    proof {
        lemma_index_after_insert(c0, cat@, rs@, *r, category_key(), lower_of(r.category@));
    }
    let su = r.submitter_id.duplicate();
    proof {
        lemma_fresh_id_absent(u0, rs@, submitter_key(), su@);
    }
    let upos = find_submitter_bucket(sub, &su);
    index_insert(sub, upos, su, id);
    proof {
        lemma_index_after_insert(u0, sub@, rs@, *r, submitter_key(), r.submitter_id@);
    }
}

/// Stores a copy of `report` under the next report id, and files it in the indexes.
pub fn create_report(store: &mut Store, report: &Report) -> (id: u64)
    requires
        old(store).wf(),
        old(store).reports@.len() + 1 < u64::MAX,
        report.consistent(),
    ensures
        final(store).wf(),
        id == old(store).next_report_id(),
        final(store).reports@.len() == old(store).reports@.len() + 1,
        final(store).reports@.drop_last() == old(store).reports@,
        final(store).reports@.last().same(report.with_id(id)),
        final(store).same_but_reports(old(store)),
{
    let id = store.reports.len() as u64 + 1;
    let mut fresh = report.duplicate();
    fresh.id = id;
    let ghost rs = store.reports@;
    index_new_report(
        &mut store.status_index,
        &mut store.category_index,
        &mut store.submitter_index,
        Ghost(rs),
        &fresh,
    );
    store.reports.push(fresh);
    proof {
        assert(store.reports@.drop_last() =~= rs);
        assert forall|i: int| 0 <= i < store.reports@.len() implies (
        #[trigger] store.reports@[i]).id == i + 1 && store.reports@[i].consistent() by {
            if i < rs.len() {
                assert(store.reports@[i] == rs[i]);
            }
        }
    }
    id
}

/// A copy of report `id`, if there is one.
pub fn get_report(store: &Store, id: u64) -> (r: Option<Report>)
    requires
        store.wf(),
    ensures
        r.is_some() == (1 <= id <= store.reports@.len()),
        r.is_some() ==> r.unwrap().same(store.reports@[id - 1]),
{
    if id == 0 || id > store.reports.len() as u64 {
        None
    } else {
        Some(store.reports[(id - 1) as usize].duplicate())
    }
}

/// Copies of all reports, in id order.
pub fn get_all_reports(store: &Store) -> (r: Vec<Report>)
    ensures
        r@.len() == store.reports@.len(),
        forall|i: int| 0 <= i < r@.len() ==> (#[trigger] r@[i]).same(store.reports@[i]),
{
    let mut out: Vec<Report> = Vec::new();
    let mut i: usize = 0;
    while i < store.reports.len()
        invariant
            i <= store.reports@.len(),
            out@.len() == i,
            forall|k: int| 0 <= k < i ==> (#[trigger] out@[k]).same(store.reports@[k]),
        decreases store.reports@.len() - i,
    {
        out.push(store.reports[i].duplicate());
        i = i + 1;
    }
    out
}

/// The number of reports.
pub fn get_all_reports_for_debug(store: &Store) -> (n: usize)
    ensures
        n == store.reports@.len(),
{
    store.reports.len()
}

/// Copies of the reports whose ids are listed, in list order.
fn reports_at(store: &Store, ids: &Vec<u64>) -> (r: Vec<Report>)
    requires
        forall|k: int| 0 <= k < ids@.len() ==> 1 <= #[trigger] ids@[k] <= store.reports@.len(),
    ensures
        r@.len() == ids@.len(),
        forall|k: int|
            0 <= k < r@.len() ==> (#[trigger] r@[k]).same(store.reports@[ids@[k] - 1]),
{
    let mut out: Vec<Report> = Vec::new();
    let n = store.reports.len();
    let mut k: usize = 0;
    while k < ids.len()
        invariant
            n == store.reports@.len(),
            k <= ids@.len(),
            out@.len() == k,
            forall|m: int| 0 <= m < ids@.len() ==> 1 <= #[trigger] ids@[m] <= store.reports@.len(),
            forall|m: int|
                0 <= m < k ==> (#[trigger] out@[m]).same(store.reports@[ids@[m] - 1]),
        decreases ids@.len() - k,
    {
        let id = ids[k];
        assert(1 <= ids@[k as int] <= store.reports@.len());
        let at = (id - 1) as usize;
        assert(at == ids@[k as int] - 1);
        out.push(store.reports[at].duplicate());
        k = k + 1;
    }
    out
}

/// The reports with status `status`, in id order, read through the status index.
/// They are exactly those that a full scan finds.
pub fn get_reports_by_status(store: &Store, status: ReportStatus) -> (r: Vec<Report>)
    requires
        store.wf(),
    ensures
        r@.len() == scan_ids(store.reports@, keyed(status_key(), status)).len(),
        forall|k: int|
            0 <= k < r@.len() ==> (#[trigger] r@[k]).same(
                store.reports@[scan_ids(store.reports@, keyed(status_key(), status))[k] - 1],
            ),
{
    let ghost ids = store.status_ids(status);
    proof {
        assert(bucket_ok(ids, store.reports@, keyed(status_key(), status)));
        lemma_bucket_is_scan(ids, store.reports@, keyed(status_key(), status));
    }
    match find_status_bucket(&store.status_index, status) {
        Some(j) => {
            proof {
                crate::index::lemma_ids_for_at(store.status_index@, j as int);
            }
            reports_at(store, &store.status_index[j].ids)
        },
        None => Vec::new(),
    }
}

/// The reports whose category is `category` up to case, in id order, read
/// through the category index. They are exactly those that a full scan finds.
pub fn get_reports_by_category(store: &Store, category: &str) -> (r: Vec<Report>)
    requires
        store.wf(),
    ensures
        r@.len() == scan_ids(store.reports@, keyed(category_key(), lower_of(category@))).len(),
        forall|k: int|
            0 <= k < r@.len() ==> (#[trigger] r@[k]).same(
                store.reports@[scan_ids(
                    store.reports@,
                    keyed(category_key(), lower_of(category@)),
                )[k] - 1],
            ),
{
    let key = lowercase(category);
    let ghost ids = store.category_ids(key@);
    proof {
        assert(bucket_ok(ids, store.reports@, keyed(category_key(), key@)));
        lemma_bucket_is_scan(ids, store.reports@, keyed(category_key(), key@));
    }
    match find_category_bucket(&store.category_index, &key) {
        Some(j) => {
            proof {
                crate::index::lemma_ids_for_at(store.category_index@, j as int);
            }
            reports_at(store, &store.category_index[j].ids)
        },
        None => Vec::new(),
    }
}

/// Replaces report `report.id` by `report`, moving it between index buckets
/// where its status, category or submitter changed.
pub fn update_report(store: &mut Store, report: Report) -> (r: Result<(), EngineError>)
    requires
        old(store).wf(),
        report.consistent(),
    ensures
        final(store).wf(),
        final(store).same_but_reports(old(store)),
        r.is_ok() == (1 <= report.id <= old(store).reports@.len()),
        r.is_ok() ==> final(store).reports@ == old(store).reports@.update(report.id - 1, report),
        r.is_err() ==> r == Err::<(), EngineError>(EngineError::NotFound(Missing::Report))
            && final(store).reports@ == old(store).reports@,
{
    let id = report.id;
    if id == 0 || id > store.reports.len() as u64 {
        return Err(EngineError::NotFound(Missing::Report));
    }
    let i = (id - 1) as usize;
    let ghost rs = store.reports@;
    let ghost s0 = store.status_index@;
    let ghost c0 = store.category_index@;
    let ghost u0 = store.submitter_index@;
    let old_status = store.reports[i].status;
    if old_status != report.status {
        proof {
            assert(bucket_ok(ids_for(s0, report.status), rs, keyed(status_key(), report.status)));
            lemma_bucket_member(ids_for(s0, report.status), rs, keyed(status_key(), report.status), i as int);
        }
        move_status(&mut store.status_index, old_status, report.status, id);
        proof {
            lemma_index_after_move(s0, store.status_index@, rs, i as int, report, status_key());
        }
    } else {
        proof {
            lemma_index_same_key(s0, rs, i as int, report, status_key());
        }
    }
    let old_cat = lowercase(store.reports[i].category.as_str());
    let new_cat = lowercase(report.category.as_str());
    if !(old_cat == new_cat) {
        proof {
            assert(bucket_ok(ids_for(c0, new_cat@), rs, keyed(category_key(), new_cat@)));
            lemma_bucket_member(ids_for(c0, new_cat@), rs, keyed(category_key(), new_cat@), i as int);
        }
        move_category(&mut store.category_index, &old_cat, new_cat, id);
        proof {
            lemma_index_after_move(c0, store.category_index@, rs, i as int, report, category_key());
        }
    } else {
        proof {
            lemma_index_same_key(c0, rs, i as int, report, category_key());
        }
    }
    if !store.reports[i].submitter_id.same(&report.submitter_id) {
        let from = store.reports[i].submitter_id.duplicate();
        let to = report.submitter_id.duplicate();
        proof {
            assert(bucket_ok(ids_for(u0, to@), rs, keyed(submitter_key(), to@)));
            lemma_bucket_member(ids_for(u0, to@), rs, keyed(submitter_key(), to@), i as int);
        }
        move_submitter(&mut store.submitter_index, &from, to, id);
        proof {
            lemma_index_after_move(u0, store.submitter_index@, rs, i as int, report, submitter_key());
        }
    } else {
        proof {
            lemma_index_same_key(u0, rs, i as int, report, submitter_key());
        }
    }
    store.reports.set(i, report);
    proof {
        assert forall|k: int| 0 <= k < store.reports@.len() implies (
        #[trigger] store.reports@[k]).id == k + 1 && store.reports@[k].consistent() by {
            if k != i {
                assert(store.reports@[k] == rs[k]);
            }
        }
    }
    Ok(())
}

/// Empties the indexes and files every report again, from a scan of the reports.
pub fn rebuild_indexes(store: &mut Store)
    requires
        old(store).records_wf(),
    ensures
        final(store).wf(),
        final(store).reports@ == old(store).reports@,
        final(store).same_but_reports(old(store)),
{
    store.status_index.clear();
    store.category_index.clear();
    store.submitter_index.clear();
    let ghost rs = store.reports@;
    proof {
        lemma_empty_index(store.status_index@, rs.subrange(0, 0), status_key());
        lemma_empty_index(store.category_index@, rs.subrange(0, 0), category_key());
        lemma_empty_index(store.submitter_index@, rs.subrange(0, 0), submitter_key());
    }
    let mut i: usize = 0;
    while i < store.reports.len()
        invariant
            store.records_wf(),
            store.reports@ == rs,
            store.same_but_reports(old(store)),
            i <= rs.len(),
            indexes_ok(
                rs.subrange(0, i as int),
                store.status_index@,
                store.category_index@,
                store.submitter_index@,
            ),
        decreases rs.len() - i,
    {
        index_new_report(
            &mut store.status_index,
            &mut store.category_index,
            &mut store.submitter_index,
            Ghost(rs.subrange(0, i as int)),
            &store.reports[i],
        );
        assert(rs.subrange(0, i as int).push(rs[i as int]) =~= rs.subrange(0, (i + 1) as int));
        i = i + 1;
    }
    assert(rs.subrange(0, rs.len() as int) =~= rs);
}

pub(crate) fn find_status_bucket(bs: &Vec<Bucket<ReportStatus>>, s: ReportStatus) -> (pos: Option<usize>)
    ensures
        position_of(bs@, pos, s),
{
    let mut i: usize = 0;
    while i < bs.len()
        invariant
            i <= bs.len(),
            forall|m: int| 0 <= m < i ==> bs@[m].key@ != s,
        decreases bs.len() - i,
    {
        if bs[i].key == s {
            return Some(i);
        }
        i = i + 1;
    }
    None
}

pub(crate) fn find_category_bucket(bs: &Vec<Bucket<String>>, c: &String) -> (pos: Option<usize>)
    ensures
        position_of(bs@, pos, c@),
{
    let mut i: usize = 0;
    while i < bs.len()
        invariant
            i <= bs.len(),
            forall|m: int| 0 <= m < i ==> bs@[m].key@ != c@,
        decreases bs.len() - i,
    {
        if bs[i].key == *c {
            return Some(i);
        }
        i = i + 1;
    }
    None
}

fn find_submitter_bucket(bs: &Vec<Bucket<Identity>>, u: &Identity) -> (pos: Option<usize>)
    ensures
        position_of(bs@, pos, u@),
{
    let mut i: usize = 0;
    while i < bs.len()
        invariant
            i <= bs.len(),
            forall|m: int| 0 <= m < i ==> bs@[m].key@ != u@,
        decreases bs.len() - i,
    {
        if bs[i].key.same(u) {
            return Some(i);
        }
        i = i + 1;
    }
    None
}

/// After moving `id` from key `from` to key `to`: what each bucket holds.
pub open spec fn moved<K: View>(
    before: Seq<Bucket<K>>,
    after: Seq<Bucket<K>>,
    from: K::V,
    to: K::V,
    id: u64,
) -> bool {
    forall|k: K::V, y: u64| #[trigger]
        ids_for(after, k).contains(y) <==> (if y == id {
            k == to || (k != from && ids_for(before, k).contains(y))
        } else {
            ids_for(before, k).contains(y)
        })
}

fn move_status(bs: &mut Vec<Bucket<ReportStatus>>, from: ReportStatus, to: ReportStatus, id: u64)
    requires
        buckets_wf(old(bs)@),
        from != to,
        !ids_for(old(bs)@, to).contains(id),
    ensures
        buckets_wf(final(bs)@),
        moved(old(bs)@, final(bs)@, from, to, id),
{
    let ghost b0 = bs@;
    let p = find_status_bucket(bs, from);
    index_remove(bs, p, &from, id);
    let ghost b1 = bs@;
    let q = find_status_bucket(bs, to);
    index_insert(bs, q, to, id);
    assert forall|k: ReportStatus, y: u64| #[trigger]
        ids_for(bs@, k).contains(y) <==> (if y == id {
            k == to || (k != from && ids_for(b0, k).contains(y))
        } else {
            ids_for(b0, k).contains(y)
        }) by {
        if k != to {
            assert(ids_for(bs@, k) == ids_for(b1, k));
        }
        if k != from {
            assert(ids_for(b1, k) == ids_for(b0, k));
        }
    }
}

fn move_category(bs: &mut Vec<Bucket<String>>, from: &String, to: String, id: u64)
    requires
        buckets_wf(old(bs)@),
        from@ != to@,
        !ids_for(old(bs)@, to@).contains(id),
    ensures
        buckets_wf(final(bs)@),
        moved(old(bs)@, final(bs)@, from@, to@, id),
{
    let ghost b0 = bs@;
    let ghost tv = to@;
    let p = find_category_bucket(bs, from);
    index_remove(bs, p, from, id);
    let ghost b1 = bs@;
    let q = find_category_bucket(bs, &to);
    index_insert(bs, q, to, id);
    assert forall|k: Seq<char>, y: u64| #[trigger]
        ids_for(bs@, k).contains(y) <==> (if y == id {
            k == tv || (k != from@ && ids_for(b0, k).contains(y))
        } else {
            ids_for(b0, k).contains(y)
        }) by {
        if k != tv {
            assert(ids_for(bs@, k) == ids_for(b1, k));
        }
        if k != from@ {
            assert(ids_for(b1, k) == ids_for(b0, k));
        }
    }
}

fn move_submitter(bs: &mut Vec<Bucket<Identity>>, from: &Identity, to: Identity, id: u64)
    requires
        buckets_wf(old(bs)@),
        from@ != to@,
        !ids_for(old(bs)@, to@).contains(id),
    ensures
        buckets_wf(final(bs)@),
        moved(old(bs)@, final(bs)@, from@, to@, id),
{
    let ghost b0 = bs@;
    let ghost tv = to@;
    let p = find_submitter_bucket(bs, from);
    index_remove(bs, p, from, id);
    let ghost b1 = bs@;
    let q = find_submitter_bucket(bs, &to);
    index_insert(bs, q, to, id);
    assert forall|k: Seq<u8>, y: u64| #[trigger]
        ids_for(bs@, k).contains(y) <==> (if y == id {
            k == tv || (k != from@ && ids_for(b0, k).contains(y))
        } else {
            ids_for(b0, k).contains(y)
        }) by {
        if k != tv {
            assert(ids_for(bs@, k) == ids_for(b1, k));
        }
        if k != from@ {
            assert(ids_for(b1, k) == ids_for(b0, k));
        }
    }
}

} // verus!

verus! {

impl Store {
    /// Reports and their indexes are as in `o`.
    pub open spec fn same_reports(&self, o: &Store) -> bool {
        &&& self.reports@ == o.reports@
        &&& self.status_index@ == o.status_index@
        &&& self.category_index@ == o.category_index@
        &&& self.submitter_index@ == o.submitter_index@
    }

    /// Only the users changed.
    pub open spec fn same_but_users(&self, o: &Store) -> bool {
        &&& self.same_reports(o)
        &&& self.authorities@ == o.authorities@
        &&& self.messages@ == o.messages@
        &&& self.evidence_files@ == o.evidence_files@
        &&& self.ipfs_config == o.ipfs_config
        &&& self.stats == o.stats
    }

    /// Only the authorities changed.
    pub open spec fn same_but_authorities(&self, o: &Store) -> bool {
        &&& self.same_reports(o)
        &&& self.users@ == o.users@
        &&& self.messages@ == o.messages@
        &&& self.evidence_files@ == o.evidence_files@
        &&& self.ipfs_config == o.ipfs_config
        &&& self.stats == o.stats
    }

    /// Only the messages changed.
    pub open spec fn same_but_messages(&self, o: &Store) -> bool {
        &&& self.same_reports(o)
        &&& self.users@ == o.users@
        &&& self.authorities@ == o.authorities@
        &&& self.evidence_files@ == o.evidence_files@
        &&& self.ipfs_config == o.ipfs_config
        &&& self.stats == o.stats
    }

    /// Only the evidence files changed.
    pub open spec fn same_but_evidence(&self, o: &Store) -> bool {
        &&& self.same_reports(o)
        &&& self.users@ == o.users@
        &&& self.authorities@ == o.authorities@
        &&& self.messages@ == o.messages@
        &&& self.ipfs_config == o.ipfs_config
        &&& self.stats == o.stats
    }
}

pub open spec fn user_index(us: Seq<User>, id: Seq<u8>) -> int {
    choose|i: int| #[trigger] user_at(us, id, i)
}

pub open spec fn authority_index(aus: Seq<Authority>, id: Seq<u8>) -> int {
    choose|i: int| #[trigger] authority_at(aus, id, i)
}

pub proof fn lemma_user_index(us: Seq<User>, id: Seq<u8>, i: int)
    requires
        users_distinct(us),
        user_at(us, id, i),
    ensures
        has_user(us, id),
        user_index(us, id) == i,
        user_of(us, id) == us[i],
{
    let j = user_index(us, id);
    assert(user_at(us, id, j));
}

pub proof fn lemma_authority_index(aus: Seq<Authority>, id: Seq<u8>, i: int)
    requires
        authorities_distinct(aus),
        authority_at(aus, id, i),
    ensures
        has_authority(aus, id),
        authority_index(aus, id) == i,
        authority_of(aus, id) == aus[i],
{
    let j = authority_index(aus, id);
    assert(authority_at(aus, id, j));
}

/// Where the record of user `id` stands.
pub fn find_user(users: &Vec<User>, id: &Identity) -> (pos: Option<usize>)
    requires
        users_distinct(users@),
    ensures
        pos.is_some() == has_user(users@, id@),
        pos.is_some() ==> pos.unwrap() == user_index(users@, id@) && user_at(
            users@,
            id@,
            pos.unwrap() as int,
        ),
{
    let mut i: usize = 0;
    while i < users.len()
        invariant
            i <= users@.len(),
            users_distinct(users@),
            forall|m: int| 0 <= m < i ==> users@[m].id@ != id@,
        decreases users@.len() - i,
    {
        if users[i].id.same(id) {
            proof {
                lemma_user_index(users@, id@, i as int);
            }
            return Some(i);
        }
        i = i + 1;
    }
    None
}

/// Where the record of authority `id` stands.
pub fn find_authority(aus: &Vec<Authority>, id: &Identity) -> (pos: Option<usize>)
    requires
        authorities_distinct(aus@),
    ensures
        pos.is_some() == has_authority(aus@, id@),
        pos.is_some() ==> pos.unwrap() == authority_index(aus@, id@) && authority_at(
            aus@,
            id@,
            pos.unwrap() as int,
        ),
{
    let mut i: usize = 0;
    while i < aus.len()
        invariant
            i <= aus@.len(),
            authorities_distinct(aus@),
            forall|m: int| 0 <= m < i ==> aus@[m].id@ != id@,
        decreases aus@.len() - i,
    {
        if aus[i].id.same(id) {
            proof {
                lemma_authority_index(aus@, id@, i as int);
            }
            return Some(i);
        }
        i = i + 1;
    }
    None
}

/// A copy of the record of user `id`, if there is one.
pub fn get_user(store: &Store, id: &Identity) -> (r: Option<User>)
    requires
        store.wf(),
    ensures
        r.is_some() == has_user(store.users@, id@),
        r.is_some() ==> r.unwrap().same(user_of(store.users@, id@)),
{
    match find_user(&store.users, id) {
        Some(i) => {
            proof {
                lemma_user_index(store.users@, id@, i as int);
            }
            Some(store.users[i].duplicate())
        },
        None => None,
    }
}

/// What the users become when `user` is stored: it replaces the record with its
/// id, or is added after the others.
pub open spec fn users_after_put(us: Seq<User>, user: User) -> Seq<User> {
    if has_user(us, user.id@) {
        us.update(user_index(us, user.id@), user)
    } else {
        us.push(user)
    }
}

pub proof fn lemma_put_keeps_distinct(us: Seq<User>, user: User)
    requires
        users_distinct(us),
    ensures
        users_distinct(users_after_put(us, user)),
        has_user(users_after_put(us, user), user.id@),
        user_of(users_after_put(us, user), user.id@) == user,
        forall|id: Seq<u8>|
            id != user.id@ ==> #[trigger] has_user(users_after_put(us, user), id) == has_user(
                us,
                id,
            ) && (has_user(us, id) ==> user_of(users_after_put(us, user), id) == user_of(us, id)),
        ledger_value(users_after_put(us, user)) == ledger_value(us) - (if has_user(
            us,
            user.id@,
        ) {
            user_of(us, user.id@).value()
        } else {
            0
        }) + user.value(),
{
    let us2 = users_after_put(us, user);
    let p = if has_user(us, user.id@) {
        user_index(us, user.id@)
    } else {
        us.len() as int
    };
    if has_user(us, user.id@) {
        assert(user_at(us, user.id@, p));
        lemma_ledger_update(us, p, user);
    } else {
        lemma_ledger_push(us, user);
    }
    assert(us2[p] == user);
    assert forall|a: int, b: int|
        0 <= a < us2.len() && 0 <= b < us2.len() && a != b implies (#[trigger] us2[a]).id@ != (
        #[trigger] us2[b]).id@ by {
        if a != p && b != p {
            assert(us2[a] == us[a] && us2[b] == us[b]);
        } else if a == p {
            assert(us2[b] == us[b]);
            assert(!user_at(us, user.id@, b) || p == b);
        } else {
            assert(us2[a] == us[a]);
            assert(!user_at(us, user.id@, a) || p == a);
        }
    }
    lemma_user_index(us2, user.id@, p);
    assert forall|id: Seq<u8>| id != user.id@ implies #[trigger] has_user(us2, id) == has_user(us, id)
        && (has_user(us, id) ==> user_of(us2, id) == user_of(us, id)) by {
        if has_user(us, id) {
            let i = user_index(us, id);
            assert(user_at(us, id, i));
            assert(us2[i] == us[i]);
            lemma_user_index(us2, id, i);
        }
        if has_user(us2, id) {
            let i = user_index(us2, id);
            assert(user_at(us2, id, i));
            assert(i != p);
            assert(user_at(us, id, i));
        }
    }
}

/// Stores `user`, replacing any record with its id.
pub fn create_or_update_user(store: &mut Store, user: User)
    requires
        old(store).wf(),
    ensures
        final(store).wf(),
        final(store).same_but_users(old(store)),
        final(store).users@ == users_after_put(old(store).users@, user),
{
    let ghost us = store.users@;
    let ghost u = user;
    match find_user(&store.users, &user.id) {
        Some(i) => {
            store.users.set(i, user);
        },
        None => {
            store.users.push(user);
        },
    }
    proof {
        lemma_put_keeps_distinct(us, u);
    }
}

/// The reports of submitter `id`, found by a full scan of the reports, in id order.
pub fn get_user_reports(store: &Store, id: &Identity) -> (r: Vec<Report>)
    requires
        store.wf(),
    ensures
        r@.len() == scan_ids(store.reports@, keyed(submitter_key(), id@)).len(),
        forall|k: int|
            0 <= k < r@.len() ==> (#[trigger] r@[k]).same(
                store.reports@[scan_ids(store.reports@, keyed(submitter_key(), id@))[k] - 1],
            ),
{
    let ghost rs = store.reports@;
    let ghost p = keyed(submitter_key(), id@);
    let mut out: Vec<Report> = Vec::new();
    let mut i: usize = 0;
    while i < store.reports.len()
        invariant
            store.wf(),
            rs == store.reports@,
            p == keyed(submitter_key(), id@),
            i <= rs.len(),
            out@.len() == scan_ids(rs.subrange(0, i as int), p).len(),
            forall|k: int| 0 <= k < out@.len() ==> 1 <= #[trigger] scan_ids(rs.subrange(0, i as int), p)[k] <= i,
            forall|k: int|
                0 <= k < out@.len() ==> (#[trigger] out@[k]).same(
                    rs[scan_ids(rs.subrange(0, i as int), p)[k] - 1],
                ),
        decreases rs.len() - i,
    {
        let ghost pre = rs.subrange(0, i as int);
        let ghost next = rs.subrange(0, (i + 1) as int);
        assert(next.drop_last() =~= pre);
        assert(next.last() == rs[i as int]);
        assert(rs[i as int].id == i + 1);
        if store.reports[i].submitter_id.same(id) {
            out.push(store.reports[i].duplicate());
        }
        i = i + 1;
    }
    assert(rs.subrange(0, rs.len() as int) =~= rs);
    out
}

/// Moves `amount` tokens from `from` to `to`. The receiver gets a record with a
/// zero balance where it had none.
pub fn transfer_tokens(store: &mut Store, from: &Identity, to: &Identity, amount: u64) -> (r:
    Result<(), EngineError>)
    requires
        old(store).wf(),
    ensures
        final(store).wf(),
        final(store).same_but_users(old(store)),
        !has_user(old(store).users@, from@) ==> r == Err::<(), EngineError>(
            EngineError::NotFound(Missing::User),
        ),
        has_user(old(store).users@, from@) && user_of(old(store).users@, from@).token_balance
            < amount ==> r == Err::<(), EngineError>(EngineError::InsufficientBalance),
        has_user(old(store).users@, from@) && user_of(old(store).users@, from@).token_balance
            >= amount ==> r == if from@ != to@ && has_user(old(store).users@, to@) && user_of(
            old(store).users@,
            to@,
        ).token_balance + amount > u64::MAX {
            Err::<(), EngineError>(EngineError::Overflow)
        } else {
            Ok::<(), EngineError>(())
        },
        r.is_err() || from@ == to@ ==> final(store).users@ == old(store).users@,
        r.is_ok() && from@ != to@ ==> has_user(final(store).users@, to@),
        r.is_ok() && from@ != to@ ==> user_of(final(store).users@, from@) == (User {
            token_balance: (user_of(old(store).users@, from@).token_balance - amount) as u64,
            ..user_of(old(store).users@, from@)
        }),
        r.is_ok() && from@ != to@ && has_user(old(store).users@, to@) ==> user_of(
            final(store).users@,
            to@,
        ) == (User {
            token_balance: (user_of(old(store).users@, to@).token_balance + amount) as u64,
            ..user_of(old(store).users@, to@)
        }),
        r.is_ok() && from@ != to@ && !has_user(old(store).users@, to@) ==> user_of(
            final(store).users@,
            to@,
        ).token_balance == amount && user_of(final(store).users@, to@).stakes_active == 0
            && user_of(final(store).users@, to@).stakes_lost == 0 && user_of(
            final(store).users@,
            to@,
        ).rewards_earned == 0 && user_of(final(store).users@, to@).reports_submitted@.len() == 0,
        r.is_ok() ==> forall|id: Seq<u8>|
            id != from@ && id != to@ ==> #[trigger] has_user(final(store).users@, id) == has_user(
                old(store).users@,
                id,
            ) && (has_user(old(store).users@, id) ==> user_of(final(store).users@, id) == user_of(
                old(store).users@,
                id,
            )),
        ledger_value(final(store).users@) == ledger_value(old(store).users@),
{
    let ghost us = store.users@;
    let fi = match find_user(&store.users, from) {
        Some(i) => i,
        None => {
            return Err(EngineError::NotFound(Missing::User));
        },
    };
    proof {
        lemma_user_index(us, from@, fi as int);
    }
    if store.users[fi].token_balance < amount {
        return Err(EngineError::InsufficientBalance);
    }
    if from.same(to) {
        return Ok(());
    }
    let ti = find_user(&store.users, to);
    if let Some(j) = ti {
        proof {
            lemma_user_index(us, to@, j as int);
        }
        if store.users[j].token_balance > u64::MAX - amount {
            return Err(EngineError::Overflow);
        }
    }
    let nb = store.users[fi].token_balance - amount;
    store.users[fi].token_balance = nb;
    let ghost us1 = store.users@;
    proof {
        assert(us1 == users_after_put(us, us1[fi as int]));
        lemma_put_keeps_distinct(us, us1[fi as int]);
    }
    match ti {
        Some(j) => {
            proof {
                assert(us1[j as int] == us[j as int]);
                lemma_user_index(us1, to@, j as int);
            }
            let b = store.users[j].token_balance + amount;
            store.users[j].token_balance = b;
            proof {
                assert(store.users@ == users_after_put(us1, store.users@[j as int]));
                lemma_put_keeps_distinct(us1, store.users@[j as int]);
            }
        },
        None => {
            let fresh = User::empty(to.duplicate(), amount);
            let ghost f = fresh;
            store.users.push(fresh);
            proof {
                assert(store.users@ == users_after_put(us1, f));
                lemma_put_keeps_distinct(us1, f);
            }
        },
    }
    proof {
        assert(us1[fi as int] == (User { token_balance: nb, ..us[fi as int] }));
        assert(user_of(us1, from@) == us1[fi as int]);
        assert(has_user(store.users@, from@) == has_user(us1, from@));
    }
    Ok(())
}

} // verus!

verus! {

/// Whether `id` is a registered authority.
pub fn is_authority(store: &Store, id: &Identity) -> (r: bool)
    requires
        store.wf(),
    ensures
        r == has_authority(store.authorities@, id@),
{
    find_authority(&store.authorities, id).is_some()
}

/// Whether `id` is an authority, how many there are, and who they are.
pub fn is_authority_debug(store: &Store, id: &Identity) -> (r: (bool, usize, Vec<Identity>))
    requires
        store.wf(),
    ensures
        r.0 == has_authority(store.authorities@, id@),
        r.1 == store.authorities@.len(),
        r.2@.len() == store.authorities@.len(),
        forall|k: int| 0 <= k < r.2@.len() ==> (#[trigger] r.2@[k])@ == store.authorities@[k].id@,
{
    let mut ids: Vec<Identity> = Vec::new();
    let mut i: usize = 0;
    while i < store.authorities.len()
        invariant
            i <= store.authorities@.len(),
            ids@.len() == i,
            forall|k: int| 0 <= k < i ==> (#[trigger] ids@[k])@ == store.authorities@[k].id@,
        decreases store.authorities@.len() - i,
    {
        ids.push(store.authorities[i].id.duplicate());
        i = i + 1;
    }
    (is_authority(store, id), store.authorities.len(), ids)
}

/// What the authorities become when `a` is stored: it replaces the record with
/// its id, or is added after the others.
pub open spec fn authorities_after_put(aus: Seq<Authority>, a: Authority) -> Seq<Authority> {
    if has_authority(aus, a.id@) {
        aus.update(authority_index(aus, a.id@), a)
    } else {
        aus.push(a)
    }
}

pub proof fn lemma_put_authority(aus: Seq<Authority>, a: Authority)
    requires
        authorities_distinct(aus),
    ensures
        authorities_distinct(authorities_after_put(aus, a)),
        has_authority(authorities_after_put(aus, a), a.id@),
        authority_of(authorities_after_put(aus, a), a.id@) == a,
        forall|id: Seq<u8>|
            id != a.id@ ==> #[trigger] has_authority(authorities_after_put(aus, a), id)
                == has_authority(aus, id),
        forall|id: Seq<u8>|
            id != a.id@ && has_authority(aus, id) ==> #[trigger] authority_of(
                authorities_after_put(aus, a),
                id,
            ) == authority_of(aus, id),
{
    let aus2 = authorities_after_put(aus, a);
    let p = if has_authority(aus, a.id@) {
        authority_index(aus, a.id@)
    } else {
        aus.len() as int
    };
    if has_authority(aus, a.id@) {
        assert(authority_at(aus, a.id@, p));
    }
    assert(aus2[p] == a);
    assert forall|x: int, y: int|
        0 <= x < aus2.len() && 0 <= y < aus2.len() && x != y implies (#[trigger] aus2[x]).id@ != (
        #[trigger] aus2[y]).id@ by {
        if x != p && y != p {
            assert(aus2[x] == aus[x] && aus2[y] == aus[y]);
        } else if x == p {
            assert(aus2[y] == aus[y]);
            assert(!authority_at(aus, a.id@, y) || p == y);
        } else {
            assert(aus2[x] == aus[x]);
            assert(!authority_at(aus, a.id@, x) || p == x);
        }
    }
    lemma_authority_index(aus2, a.id@, p);
    assert forall|id: Seq<u8>| id != a.id@ implies has_authority(aus2, id) == has_authority(aus, id)
        && (has_authority(aus, id) ==> authority_of(aus2, id) == authority_of(aus, id)) by {
        if has_authority(aus, id) {
            let i = authority_index(aus, id);
            assert(authority_at(aus, id, i));
            assert(aus2[i] == aus[i]);
            lemma_authority_index(aus2, id, i);
        }
        if has_authority(aus2, id) {
            let i = authority_index(aus2, id);
            assert(authority_at(aus2, id, i));
            assert(i != p);
            assert(authority_at(aus, id, i));
        }
    }
}

/// Stores `authority`, replacing any record with its id.
pub fn add_authority(store: &mut Store, authority: Authority)
    requires
        old(store).wf(),
    ensures
        final(store).wf(),
        final(store).same_but_authorities(old(store)),
        final(store).authorities@ == authorities_after_put(old(store).authorities@, authority),
{
    let ghost aus = store.authorities@;
    let ghost a = authority;
    match find_authority(&store.authorities, &authority.id) {
        Some(i) => {
            store.authorities.set(i, authority);
        },
        None => {
            store.authorities.push(authority);
        },
    }
    proof {
        lemma_put_authority(aus, a);
    }
}

/// A copy of the record of authority `id`, if there is one.
pub fn get_authority(store: &Store, id: &Identity) -> (r: Option<Authority>)
    requires
        store.wf(),
    ensures
        r.is_some() == has_authority(store.authorities@, id@),
        r.is_some() ==> r.unwrap().same(authority_of(store.authorities@, id@)),
{
    match find_authority(&store.authorities, id) {
        Some(i) => {
            proof {
                lemma_authority_index(store.authorities@, id@, i as int);
            }
            Some(store.authorities[i].duplicate())
        },
        None => None,
    }
}

/// Stores `authority`, replacing any record with its id.
pub fn update_authority(store: &mut Store, authority: Authority)
    requires
        old(store).wf(),
    ensures
        final(store).wf(),
        final(store).same_but_authorities(old(store)),
        final(store).authorities@ == authorities_after_put(old(store).authorities@, authority),
{
    add_authority(store, authority)
}

/// Removes authority `id`, where it is one.
pub fn remove_authority(store: &mut Store, id: &Identity)
    requires
        old(store).wf(),
    ensures
        final(store).wf(),
        final(store).same_but_authorities(old(store)),
        !has_authority(final(store).authorities@, id@),
        forall|other: Seq<u8>|
            other != id@ ==> #[trigger] has_authority(final(store).authorities@, other)
                == has_authority(old(store).authorities@, other),
        forall|other: Seq<u8>|
            other != id@ && has_authority(old(store).authorities@, other) ==> #[trigger] authority_of(
                final(store).authorities@,
                other,
            ) == authority_of(old(store).authorities@, other),
{
    let ghost aus = store.authorities@;
    match find_authority(&store.authorities, id) {
        Some(i) => {
            store.authorities.remove(i);
            proof {
                let aus2 = store.authorities@;
                assert(aus2 == aus.remove(i as int));
                assert forall|x: int, y: int|
                    0 <= x < aus2.len() && 0 <= y < aus2.len() && x != y implies (
                    #[trigger] aus2[x]).id@ != (#[trigger] aus2[y]).id@ by {
                    let x0 = if x < i { x } else { x + 1 };
                    let y0 = if y < i { y } else { y + 1 };
                    assert(aus2[x] == aus[x0] && aus2[y] == aus[y0]);
                }
                assert(!has_authority(aus2, id@)) by {
                    if has_authority(aus2, id@) {
                        let m = authority_index(aus2, id@);
                        assert(authority_at(aus2, id@, m));
                        let m0 = if m < i { m } else { m + 1 };
                        assert(aus2[m] == aus[m0]);
                        assert(authority_at(aus, id@, i as int));
                    }
                }
                assert forall|other: Seq<u8>| other != id@ implies has_authority(aus2, other)
                    == has_authority(aus, other) && (has_authority(aus, other) ==> authority_of(
                    aus2,
                    other,
                ) == authority_of(aus, other)) by {
                    if has_authority(aus, other) {
                        let m = authority_index(aus, other);
                        assert(authority_at(aus, other, m));
                        assert(m != i);
                        let m1 = if m < i { m } else { m - 1 };
                        assert(aus2[m1] == aus[m]);
                        lemma_authority_index(aus2, other, m1);
                    }
                    if has_authority(aus2, other) {
                        let m = authority_index(aus2, other);
                        assert(authority_at(aus2, other, m));
                        let m0 = if m < i { m } else { m + 1 };
                        assert(aus2[m] == aus[m0]);
                        assert(authority_at(aus, other, m0));
                    }
                }
            }
        },
        None => {},
    }
}

/// Copies of all authorities, in the order they are stored.
pub fn get_all_authorities(store: &Store) -> (r: Vec<Authority>)
    ensures
        r@.len() == store.authorities@.len(),
        forall|i: int| 0 <= i < r@.len() ==> (#[trigger] r@[i]).same(store.authorities@[i]),
{
    let mut out: Vec<Authority> = Vec::new();
    let mut i: usize = 0;
    while i < store.authorities.len()
        invariant
            i <= store.authorities@.len(),
            out@.len() == i,
            forall|k: int| 0 <= k < i ==> (#[trigger] out@[k]).same(store.authorities@[k]),
        decreases store.authorities@.len() - i,
    {
        out.push(store.authorities[i].duplicate());
        i = i + 1;
    }
    out
}

impl Message {
    pub open spec fn with_id(self, id: u64) -> Message {
        Message { id, ..self }
    }
}

impl EvidenceFile {
    pub open spec fn with_id(self, id: u64) -> EvidenceFile {
        EvidenceFile { id, ..self }
    }
}

/// Stores a copy of `message` under the next message id.
pub fn create_message(store: &mut Store, message: &Message) -> (id: u64)
    requires
        old(store).wf(),
        old(store).messages@.len() + 1 < u64::MAX,
    ensures
        final(store).wf(),
        final(store).same_but_messages(old(store)),
        id == old(store).next_message_id(),
        final(store).messages@.len() == old(store).messages@.len() + 1,
        final(store).messages@.drop_last() == old(store).messages@,
        final(store).messages@.last().same(message.with_id(id)),
{
    let id = store.messages.len() as u64 + 1;
    let mut m = message.duplicate();
    m.id = id;
    let ghost ms = store.messages@;
    store.messages.push(m);
    proof {
        assert(store.messages@.drop_last() =~= ms);
        assert forall|i: int| 0 <= i < store.messages@.len() implies (
        #[trigger] store.messages@[i]).id == i + 1 by {
            if i < ms.len() {
                assert(store.messages@[i] == ms[i]);
            }
        }
    }
    id
}

/// The positions of the messages of report `rid`, in id order.
pub open spec fn message_positions(ms: Seq<Message>, rid: u64) -> Seq<int>
    decreases ms.len(),
{
    if ms.len() == 0 {
        Seq::empty()
    } else {
        let before = message_positions(ms.drop_last(), rid);
        if ms.last().report_id == rid {
            before.push(ms.len() - 1)
        } else {
            before
        }
    }
}

/// Copies of the messages of report `report_id`, oldest first.
pub fn get_report_messages(store: &Store, report_id: u64) -> (r: Vec<Message>)
    ensures
        r@.len() == message_positions(store.messages@, report_id).len(),
        forall|k: int|
            0 <= k < r@.len() ==> (#[trigger] r@[k]).same(
                store.messages@[message_positions(store.messages@, report_id)[k]],
            ),
{
    let ghost ms = store.messages@;
    let mut out: Vec<Message> = Vec::new();
    let mut i: usize = 0;
    while i < store.messages.len()
        invariant
            ms == store.messages@,
            i <= ms.len(),
            out@.len() == message_positions(ms.subrange(0, i as int), report_id).len(),
            forall|k: int|
                0 <= k < out@.len() ==> 0 <= #[trigger] message_positions(
                    ms.subrange(0, i as int),
                    report_id,
                )[k] < i,
            forall|k: int|
                0 <= k < out@.len() ==> (#[trigger] out@[k]).same(
                    ms[message_positions(ms.subrange(0, i as int), report_id)[k]],
                ),
        decreases ms.len() - i,
    {
        let ghost pre = ms.subrange(0, i as int);
        let ghost next = ms.subrange(0, (i + 1) as int);
        assert(next.drop_last() =~= pre);
        assert(next.last() == ms[i as int]);
        if store.messages[i].report_id == report_id {
            out.push(store.messages[i].duplicate());
        }
        i = i + 1;
    }
    assert(ms.subrange(0, ms.len() as int) =~= ms);
    out
}

/// Stores a copy of `file` under the next evidence id.
pub fn add_evidence_file(store: &mut Store, file: &EvidenceFile) -> (id: u64)
    requires
        old(store).wf(),
        old(store).evidence_files@.len() + 1 < u64::MAX,
    ensures
        final(store).wf(),
        final(store).same_but_evidence(old(store)),
        id == old(store).next_evidence_id(),
        final(store).evidence_files@.len() == old(store).evidence_files@.len() + 1,
        final(store).evidence_files@.drop_last() == old(store).evidence_files@,
        final(store).evidence_files@.last().same(file.with_id(id)),
{
    let id = store.evidence_files.len() as u64 + 1;
    let mut f = file.duplicate();
    f.id = id;
    let ghost es = store.evidence_files@;
    store.evidence_files.push(f);
    proof {
        assert(store.evidence_files@.drop_last() =~= es);
        assert forall|i: int| 0 <= i < store.evidence_files@.len() implies (
        #[trigger] store.evidence_files@[i]).id == i + 1 by {
            if i < es.len() {
                assert(store.evidence_files@[i] == es[i]);
            }
        }
    }
    id
}

/// A copy of evidence file `id`, if there is one.
pub fn get_evidence_file(store: &Store, id: u64) -> (r: Option<EvidenceFile>)
    requires
        store.wf(),
    ensures
        r.is_some() == (1 <= id <= store.evidence_files@.len()),
        r.is_some() ==> r.unwrap().same(store.evidence_files@[id - 1]),
{
    if id == 0 || id > store.evidence_files.len() as u64 {
        None
    } else {
        Some(store.evidence_files[(id - 1) as usize].duplicate())
    }
}

/// Replaces evidence file `file.id` by `file`.
pub fn update_evidence_file(store: &mut Store, file: EvidenceFile) -> (r: Result<(), EngineError>)
    requires
        old(store).wf(),
    ensures
        final(store).wf(),
        final(store).same_but_evidence(old(store)),
        r.is_ok() == (1 <= file.id <= old(store).evidence_files@.len()),
        r.is_ok() ==> final(store).evidence_files@ == old(store).evidence_files@.update(
            file.id - 1,
            file,
        ),
        r.is_err() ==> r == Err::<(), EngineError>(EngineError::NotFound(Missing::Evidence))
            && final(store).evidence_files@ == old(store).evidence_files@,
{
    let id = file.id;
    if id == 0 || id > store.evidence_files.len() as u64 {
        return Err(EngineError::NotFound(Missing::Evidence));
    }
    let ghost es = store.evidence_files@;
    let i = (id - 1) as usize;
    store.evidence_files.set(i, file);
    proof {
        assert forall|k: int| 0 <= k < store.evidence_files@.len() implies (
        #[trigger] store.evidence_files@[k]).id == k + 1 by {
            if k != i {
                assert(store.evidence_files@[k] == es[k]);
            }
        }
    }
    Ok(())
}

/// Records where report `report_id` was archived, and when.
pub fn set_report_ipfs_metadata(store: &mut Store, report_id: u64, cid: String, pinned_at: u64) -> (r:
    Result<(), EngineError>)
    requires
        old(store).wf(),
    ensures
        final(store).wf(),
        final(store).same_but_reports(old(store)),
        r.is_ok() == (1 <= report_id <= old(store).reports@.len()),
        r.is_ok() ==> final(store).reports@ == old(store).reports@.update(
            report_id - 1,
            Report {
                ipfs_cid: Some(cid),
                ipfs_pinned_at: Some(pinned_at),
                ..old(store).reports@[report_id - 1]
            },
        ),
        r.is_err() ==> r == Err::<(), EngineError>(EngineError::NotFound(Missing::Report))
            && final(store).reports@ == old(store).reports@,
{
    if report_id == 0 || report_id > store.reports.len() as u64 {
        return Err(EngineError::NotFound(Missing::Report));
    }
    let i = (report_id - 1) as usize;
    let ghost rs = store.reports@;
    store.reports[i].ipfs_cid = Some(cid);
    store.reports[i].ipfs_pinned_at = Some(pinned_at);
    proof {
        let r2 = store.reports@[i as int];
        assert(store.reports@ == rs.update(i as int, r2));
        lemma_index_same_key(store.status_index@, rs, i as int, r2, status_key());
        lemma_index_same_key(store.category_index@, rs, i as int, r2, category_key());
        lemma_index_same_key(store.submitter_index@, rs, i as int, r2, submitter_key());
        assert forall|k: int| 0 <= k < store.reports@.len() implies (
        #[trigger] store.reports@[k]).id == k + 1 && store.reports@[k].consistent() by {
            if k != i {
                assert(store.reports@[k] == rs[k]);
            }
        }
    }
    Ok(())
}

/// Records where evidence file `evidence_id` was archived.
pub fn set_evidence_ipfs_cid(store: &mut Store, evidence_id: u64, cid: String) -> (r: Result<
    (),
    EngineError,
>)
    requires
        old(store).wf(),
    ensures
        final(store).wf(),
        final(store).same_but_evidence(old(store)),
        r.is_ok() == (1 <= evidence_id <= old(store).evidence_files@.len()),
        r.is_ok() ==> final(store).evidence_files@ == old(store).evidence_files@.update(
            evidence_id - 1,
            EvidenceFile { ipfs_cid: Some(cid), ..old(store).evidence_files@[evidence_id - 1] },
        ),
        r.is_err() ==> r == Err::<(), EngineError>(EngineError::NotFound(Missing::Evidence))
            && final(store).evidence_files@ == old(store).evidence_files@,
{
    if evidence_id == 0 || evidence_id > store.evidence_files.len() as u64 {
        return Err(EngineError::NotFound(Missing::Evidence));
    }
    let i = (evidence_id - 1) as usize;
    let ghost es = store.evidence_files@;
    store.evidence_files[i].ipfs_cid = Some(cid);
    proof {
        assert forall|k: int| 0 <= k < store.evidence_files@.len() implies (
        #[trigger] store.evidence_files@[k]).id == k + 1 by {
            if k != i {
                assert(store.evidence_files@[k] == es[k]);
            }
        }
    }
    Ok(())
}

/// The placeholder credential that stands until real ones are configured.
pub const DEFAULT_CREDENTIAL: &'static str = "CONFIGURE_VIA_API";

/// Puts placeholder credentials in place where none are configured.
pub fn ensure_default_ipfs_config(store: &mut Store)
    requires
        old(store).wf(),
    ensures
        final(store).wf(),
        final(store).same_reports(old(store)),
        final(store).users@ == old(store).users@,
        final(store).authorities@ == old(store).authorities@,
        final(store).messages@ == old(store).messages@,
        final(store).evidence_files@ == old(store).evidence_files@,
        final(store).stats == old(store).stats,
        old(store).ipfs_config.is_some() ==> final(store).ipfs_config == old(store).ipfs_config,
        old(store).ipfs_config.is_none() ==> final(store).ipfs_config == Some(
            IpfsConfig {
                api_key: final(store).ipfs_config.unwrap().api_key,
                api_secret: final(store).ipfs_config.unwrap().api_secret,
                jwt: final(store).ipfs_config.unwrap().jwt,
            },
        ) && final(store).ipfs_config.unwrap().api_key@ == DEFAULT_CREDENTIAL@
            && final(store).ipfs_config.unwrap().api_secret@ == DEFAULT_CREDENTIAL@
            && final(store).ipfs_config.unwrap().jwt@ == DEFAULT_CREDENTIAL@,
{
    if store.ipfs_config.is_none() {
        store.ipfs_config = Some(
            IpfsConfig {
                api_key: String::from_str(DEFAULT_CREDENTIAL),
                api_secret: String::from_str(DEFAULT_CREDENTIAL),
                jwt: String::from_str(DEFAULT_CREDENTIAL),
            },
        );
    }
}

/// A copy of the archival credentials, if configured.
pub fn get_ipfs_config(store: &Store) -> (r: Option<IpfsConfig>)
    ensures
        r == store.ipfs_config,
{
    match &store.ipfs_config {
        Some(c) => Some(c.duplicate()),
        None => None,
    }
}

/// Replaces the archival credentials.
pub fn set_ipfs_config(store: &mut Store, config: IpfsConfig)
    requires
        old(store).wf(),
    ensures
        final(store).wf(),
        final(store).same_reports(old(store)),
        final(store).users@ == old(store).users@,
        final(store).authorities@ == old(store).authorities@,
        final(store).messages@ == old(store).messages@,
        final(store).evidence_files@ == old(store).evidence_files@,
        final(store).stats == old(store).stats,
        final(store).ipfs_config == Some(config),
{
    store.ipfs_config = Some(config);
}

/// The number of reports with status `s`, by a full scan.
pub open spec fn count_with_status(rs: Seq<Report>, s: ReportStatus) -> nat {
    scan_ids(rs, keyed(status_key(), s)).len()
}

pub proof fn lemma_count_bounded(rs: Seq<Report>, s: ReportStatus)
    ensures
        count_with_status(rs, s) <= rs.len(),
    decreases rs.len(),
{
    if rs.len() > 0 {
        lemma_count_bounded(rs.drop_last(), s);
    }
}

/// The rewards carried by Approved reports.
pub open spec fn approved_rewards(rs: Seq<Report>) -> int
    decreases rs.len(),
{
    if rs.len() == 0 {
        0
    } else {
        approved_rewards(rs.drop_last()) + if rs.last().status == ReportStatus::Approved {
            rs.last().reward_amount as int
        } else {
            0
        }
    }
}

/// Report counts by status and the rewards paid on Approved reports (capped at
/// `u64::MAX`), all derived by a full scan of the reports.
pub fn get_authority_stats(store: &Store) -> (r: AuthorityStats)
    requires
        store.wf(),
    ensures
        r.reports_pending == count_with_status(store.reports@, ReportStatus::Pending),
        r.reports_verified == count_with_status(store.reports@, ReportStatus::Approved),
        r.reports_rejected == count_with_status(store.reports@, ReportStatus::Rejected),
        r.total_rewards_distributed == if approved_rewards(store.reports@) <= u64::MAX {
            approved_rewards(store.reports@)
        } else {
            u64::MAX as int
        },
{
    let ghost rs = store.reports@;
    let mut pending: u64 = 0;
    let mut approved: u64 = 0;
    let mut rejected: u64 = 0;
    let mut rewards: u64 = 0;
    let mut capped = false;
    let mut i: usize = 0;
    while i < store.reports.len()
        invariant
            rs == store.reports@,
            rs.len() < u64::MAX,
            i <= rs.len(),
            pending == count_with_status(rs.subrange(0, i as int), ReportStatus::Pending),
            approved == count_with_status(rs.subrange(0, i as int), ReportStatus::Approved),
            rejected == count_with_status(rs.subrange(0, i as int), ReportStatus::Rejected),
            !capped ==> rewards == approved_rewards(rs.subrange(0, i as int)),
            capped ==> rewards == u64::MAX && approved_rewards(rs.subrange(0, i as int)) > u64::MAX,
        decreases rs.len() - i,
    {
        let ghost pre = rs.subrange(0, i as int);
        let ghost next = rs.subrange(0, (i + 1) as int);
        assert(next.drop_last() =~= pre);
        assert(next.last() == rs[i as int]);
        proof {
            lemma_count_bounded(pre, ReportStatus::Pending);
            lemma_count_bounded(pre, ReportStatus::Approved);
            lemma_count_bounded(pre, ReportStatus::Rejected);
            lemma_approved_rewards_nonneg(pre);
        }
        match store.reports[i].status {
            ReportStatus::Pending => pending = pending + 1,
            ReportStatus::Approved => {
                approved = approved + 1;
                let w = store.reports[i].reward_amount;
                if !capped {
                    if rewards > u64::MAX - w {
                        capped = true;
                        rewards = u64::MAX;
                    } else {
                        rewards = rewards + w;
                    }
                }
            },
            ReportStatus::Rejected => rejected = rejected + 1,
            ReportStatus::UnderReview => {},
        }
        i = i + 1;
    }
    assert(rs.subrange(0, rs.len() as int) =~= rs);
    AuthorityStats {
        reports_pending: pending,
        reports_verified: approved,
        reports_rejected: rejected,
        total_rewards_distributed: rewards,
    }
}

pub proof fn lemma_approved_rewards_nonneg(rs: Seq<Report>)
    ensures
        approved_rewards(rs) >= 0,
    decreases rs.len(),
{
    if rs.len() > 0 {
        lemma_approved_rewards_nonneg(rs.drop_last());
    }
}

/// Replaces the stored statistics.
pub fn update_authority_stats(store: &mut Store, stats: AuthorityStats)
    requires
        old(store).wf(),
    ensures
        final(store).wf(),
        final(store).same_reports(old(store)),
        final(store).users@ == old(store).users@,
        final(store).authorities@ == old(store).authorities@,
        final(store).messages@ == old(store).messages@,
        final(store).evidence_files@ == old(store).evidence_files@,
        final(store).ipfs_config == old(store).ipfs_config,
        final(store).stats == stats,
{
    store.stats = stats;
}

/// Seeds no records: the store starts from real submissions only.
pub fn initialize_mock_data(store: &mut Store)
    ensures
        *final(store) == *old(store),
{
}

} // verus!

verus! {

/// Whether the users have distinct ids.
fn users_are_distinct(us: &Vec<User>) -> (r: bool)
    ensures
        r == users_distinct(us@),
{
    let mut i: usize = 0;
    while i < us.len()
        invariant
            i <= us@.len(),
            forall|a: int, b: int|
                0 <= a < us@.len() && 0 <= b < us@.len() && a != b && (a < i || b < i) ==> (
                #[trigger] us@[a]).id@ != (#[trigger] us@[b]).id@,
        decreases us@.len() - i,
    {
        let mut j: usize = 0;
        while j < us.len()
            invariant
                i < us@.len(),
                j <= us@.len(),
                forall|a: int, b: int|
                    0 <= a < us@.len() && 0 <= b < us@.len() && a != b && (a < i || b < i) ==> (
                    #[trigger] us@[a]).id@ != (#[trigger] us@[b]).id@,
                forall|b: int| 0 <= b < j && b != i ==> us@[i as int].id@ != us@[b].id@,
            decreases us@.len() - j,
        {
            if j != i && us[i].id.same(&us[j].id) {
                return false;
            }
            j = j + 1;
        }
        i = i + 1;
    }
    true
}

/// Whether the authorities have distinct ids.
fn authorities_are_distinct(aus: &Vec<Authority>) -> (r: bool)
    ensures
        r == authorities_distinct(aus@),
{
    let mut i: usize = 0;
    while i < aus.len()
        invariant
            i <= aus@.len(),
            forall|a: int, b: int|
                0 <= a < aus@.len() && 0 <= b < aus@.len() && a != b && (a < i || b < i) ==> (
                #[trigger] aus@[a]).id@ != (#[trigger] aus@[b]).id@,
        decreases aus@.len() - i,
    {
        let mut j: usize = 0;
        while j < aus.len()
            invariant
                i < aus@.len(),
                j <= aus@.len(),
                forall|a: int, b: int|
                    0 <= a < aus@.len() && 0 <= b < aus@.len() && a != b && (a < i || b < i) ==> (
                    #[trigger] aus@[a]).id@ != (#[trigger] aus@[b]).id@,
                forall|b: int| 0 <= b < j && b != i ==> aus@[i as int].id@ != aus@[b].id@,
            decreases aus@.len() - j,
        {
            if j != i && aus[i].id.same(&aus[j].id) {
                return false;
            }
            j = j + 1;
        }
        i = i + 1;
    }
    true
}

/// Whether report `i` carries id `i + 1` and is consistent, for every report.
fn reports_are_sound(rs: &Vec<Report>) -> (r: bool)
    ensures
        r == (ids_dense(rs@) && forall|i: int|
            0 <= i < rs@.len() ==> (#[trigger] rs@[i]).consistent()),
{
    let mut i: usize = 0;
    while i < rs.len()
        invariant
            i <= rs@.len(),
            forall|k: int| 0 <= k < i ==> (#[trigger] rs@[k]).id == k + 1 && rs@[k].consistent(),
        decreases rs@.len() - i,
    {
        let r = &rs[i];
        if r.id != i as u64 + 1 || (r.reward_amount > 0 && r.status != ReportStatus::Approved)
            || r.reviewer.is_some() != r.review_date.is_some() {
            return false;
        }
        i = i + 1;
    }
    true
}

/// Whether message `i` carries id `i + 1`, for every message.
fn messages_are_dense(ms: &Vec<Message>) -> (r: bool)
    ensures
        r == messages_dense(ms@),
{
    let mut i: usize = 0;
    while i < ms.len()
        invariant
            i <= ms@.len(),
            forall|k: int| 0 <= k < i ==> (#[trigger] ms@[k]).id == k + 1,
        decreases ms@.len() - i,
    {
        if ms[i].id != i as u64 + 1 {
            return false;
        }
        i = i + 1;
    }
    true
}

/// Whether evidence file `i` carries id `i + 1`, for every file.
fn evidence_is_dense(es: &Vec<EvidenceFile>) -> (r: bool)
    ensures
        r == evidence_dense(es@),
{
    let mut i: usize = 0;
    while i < es.len()
        invariant
            i <= es@.len(),
            forall|k: int| 0 <= k < i ==> (#[trigger] es@[k]).id == k + 1,
        decreases es@.len() - i,
    {
        if es[i].id != i as u64 + 1 {
            return false;
        }
        i = i + 1;
    }
    true
}

/// A store over saved records, with its indexes rebuilt from the reports; none
/// where the records break the store's rules (ids out of place, a report with
/// a reward but not Approved, or a decision half recorded, a user or authority
/// listed twice).
pub fn from_records(
    reports: Vec<Report>,
    users: Vec<User>,
    authorities: Vec<Authority>,
    messages: Vec<Message>,
    evidence_files: Vec<EvidenceFile>,
    ipfs_config: Option<IpfsConfig>,
    stats: AuthorityStats,
) -> (r: Option<Store>)
    ensures
        r.is_some() == (ids_dense(reports@) && (forall|i: int|
            0 <= i < reports@.len() ==> (#[trigger] reports@[i]).consistent())
            && reports@.len() < u64::MAX && messages_dense(messages@) && messages@.len() < u64::MAX
            && evidence_dense(evidence_files@) && evidence_files@.len() < u64::MAX && users_distinct(
            users@,
        ) && authorities_distinct(authorities@)),
        r.is_some() ==> {
            let s = r.unwrap();
            &&& s.wf()
            &&& s.reports@ == reports@
            &&& s.users@ == users@
            &&& s.authorities@ == authorities@
            &&& s.messages@ == messages@
            &&& s.evidence_files@ == evidence_files@
            &&& s.ipfs_config == ipfs_config
            &&& s.stats == stats
        },
{
    if !reports_are_sound(&reports) || reports.len() as u64 == u64::MAX || !messages_are_dense(
        &messages,
    ) || messages.len() as u64 == u64::MAX || !evidence_is_dense(&evidence_files)
        || evidence_files.len() as u64 == u64::MAX || !users_are_distinct(&users)
        || !authorities_are_distinct(&authorities) {
        return None;
    }
    let mut s = Store {
        reports,
        users,
        authorities,
        messages,
        evidence_files,
        ipfs_config,
        status_index: Vec::new(),
        category_index: Vec::new(),
        submitter_index: Vec::new(),
        stats,
    };
    rebuild_indexes(&mut s);
    Some(s)
}

} // verus!
