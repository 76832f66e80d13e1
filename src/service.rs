//! Operations of the public surface beyond the lifecycle: authority bootstrap
//! and clean-up, token grants, evidence access and date queries.
use crate::handlers::{
    AUTHORIZED_PRINCIPAL, CONTROLLER_PRINCIPAL, may_view, principal_from_text, principal_of_text,
};
use crate::index::{keyed, scan_ids};
use crate::store::{
    Store, authorities_after_put, authorities_distinct, authority_at, has_authority, has_user,
    lemma_put_authority, lemma_put_keeps_distinct, lemma_user_index, user_of, users_after_put,
};
use crate::types::{
    Authority, Denial, EngineError, EvidenceFile, Identity, Invalid, Report, ReportStatus, User,
    anonymous_bytes,
};
use vstd::prelude::*;

verus! {

/// For authorities: gives `amount` tokens to `user_id`, making its record where
/// it has none.
pub fn add_tokens_to_user(store: &mut Store, caller: &Identity, user_id: &Identity, amount: u64) -> (r:
    Result<(), EngineError>)
    requires
        old(store).wf(),
    ensures
        final(store).wf(),
        final(store).same_but_users(old(store)),
        !has_authority(old(store).authorities@, caller@) ==> r == Err::<(), EngineError>(
            EngineError::Authorization(Denial::NotAuthority),
        ) && *final(store) == *old(store),
        has_authority(old(store).authorities@, caller@) && has_user(old(store).users@, user_id@)
            && user_of(old(store).users@, user_id@).token_balance + amount > u64::MAX ==> r
            == Err::<(), EngineError>(EngineError::Overflow) && *final(store) == *old(store),
        has_authority(old(store).authorities@, caller@) && has_user(old(store).users@, user_id@)
            && user_of(old(store).users@, user_id@).token_balance + amount <= u64::MAX ==> r.is_ok()
            && final(store).users@ == users_after_put(
            old(store).users@,
            User {
                token_balance: (user_of(old(store).users@, user_id@).token_balance
                    + amount) as u64,
                ..user_of(old(store).users@, user_id@)
            },
        ),
        has_authority(old(store).authorities@, caller@) && !has_user(old(store).users@, user_id@)
            ==> r.is_ok() && final(store).users@.drop_last() == old(store).users@ && final(
            store).users@.last().id@ == user_id@ && final(store).users@.last().token_balance
            == amount && final(store).users@.last().value() == amount,
{
    if !crate::store::is_authority(store, caller) {
        return Err(EngineError::Authorization(Denial::NotAuthority));
    }
    let ghost us = store.users@;
    match crate::store::find_user(&store.users, user_id) {
        Some(i) => {
            proof {
                lemma_user_index(us, user_id@, i as int);
            }
            if store.users[i].token_balance > u64::MAX - amount {
                return Err(EngineError::Overflow);
            }
            store.users[i].token_balance = store.users[i].token_balance + amount;
            proof {
                let u2 = store.users@[i as int];
                assert(store.users@ == us.update(i as int, u2));
                assert(users_after_put(us, u2) == store.users@);
                lemma_put_keeps_distinct(us, u2);
            }
        },
        None => {
            let fresh = User::empty(user_id.duplicate(), amount);
            let ghost f = fresh;
            crate::store::create_or_update_user(store, fresh);
            proof {
                assert(store.users@.drop_last() =~= us);
            }
        },
    }
    Ok(())
}

/// The distinguished principal registers itself as an authority. `Ok(true)`
/// when it was registered now, `Ok(false)` when it already was.
pub fn register_as_authority(store: &mut Store, caller: &Identity) -> (r: Result<bool, EngineError>)
    requires
        old(store).wf(),
    ensures
        final(store).wf(),
        final(store).same_but_authorities(old(store)),
        caller@ == anonymous_bytes() ==> r == Err::<bool, EngineError>(
            EngineError::Authorization(Denial::Anonymous),
        ) && *final(store) == *old(store),
        caller@ != anonymous_bytes() && principal_of_text(AUTHORIZED_PRINCIPAL@) != Some(caller@)
            ==> r == Err::<bool, EngineError>(EngineError::Authorization(Denial::NotAuthority))
            && *final(store) == *old(store),
        caller@ != anonymous_bytes() && principal_of_text(AUTHORIZED_PRINCIPAL@) == Some(caller@)
            ==> r == Ok::<bool, EngineError>(!has_authority(old(store).authorities@, caller@))
            && has_authority(final(store).authorities@, caller@) && (has_authority(
            old(store).authorities@,
            caller@,
        ) ==> *final(store) == *old(store)),
{
    if caller.is_anonymous() {
        return Err(EngineError::Authorization(Denial::Anonymous));
    }
    let authorized = match principal_from_text(AUTHORIZED_PRINCIPAL) {
        Some(a) => a,
        None => {
            return Err(EngineError::Authorization(Denial::NotAuthority));
        },
    };
    if !caller.same(&authorized) {
        return Err(EngineError::Authorization(Denial::NotAuthority));
    }
    if crate::store::is_authority(store, caller) {
        return Ok(false);
    }
    let a = Authority::fresh(caller.duplicate());
    let ghost aus = store.authorities@;
    let ghost av = a;
    crate::store::add_authority(store, a);
    proof {
        lemma_put_authority(aus, av);
    }
    Ok(true)
}

/// Registers the distinguished principal as a fresh authority, replacing any
/// record it had. Returns whether it is an authority afterwards, and how many
/// authorities there are.
pub fn initialize_hardcoded_authority(store: &mut Store) -> (r: Result<(bool, usize), EngineError>)
    requires
        old(store).wf(),
    ensures
        final(store).wf(),
        final(store).same_but_authorities(old(store)),
        principal_of_text(AUTHORIZED_PRINCIPAL@) is None ==> r == Err::<(bool, usize), EngineError>(
            EngineError::Validation(Invalid::Principal),
        ) && *final(store) == *old(store),
        principal_of_text(AUTHORIZED_PRINCIPAL@) is Some ==> {
            let id = principal_of_text(AUTHORIZED_PRINCIPAL@).unwrap();
            &&& r.is_ok()
            &&& has_authority(final(store).authorities@, id)
            &&& r.unwrap().0
            &&& r.unwrap().1 == final(store).authorities@.len()
            &&& final(store).authorities@.len() == old(store).authorities@.len() + if has_authority(
                old(store).authorities@,
                id,
            ) {
                0int
            } else {
                1int
            }
        },
{
    let authorized = match principal_from_text(AUTHORIZED_PRINCIPAL) {
        Some(a) => a,
        None => {
            return Err(EngineError::Validation(Invalid::Principal));
        },
    };
    let ghost aus = store.authorities@;
    let a = Authority::fresh(authorized.duplicate());
    let ghost av = a;
    crate::store::add_authority(store, a);
    proof {
        lemma_put_authority(aus, av);
    }
    let is_auth = crate::store::is_authority(store, &authorized);
    Ok((is_auth, store.authorities.len()))
}

/// How many of `aus` are not `keep`.
pub open spec fn count_others(aus: Seq<Authority>, keep: Seq<u8>) -> nat
    decreases aus.len(),
{
    if aus.len() == 0 {
        0
    } else {
        count_others(aus.drop_last(), keep) + if aus.last().id@ != keep {
            1nat
        } else {
            0nat
        }
    }
}

/// Removes every authority but the distinguished principal, and registers that
/// one where it is missing. Open to the distinguished principal, the
/// controller, and authorities. Returns how many were removed.
pub fn cleanup_unauthorized_authorities(store: &mut Store, caller: &Identity) -> (r: Result<
    u64,
    EngineError,
>)
    requires
        old(store).wf(),
    ensures
        final(store).wf(),
        final(store).same_but_authorities(old(store)),
        (principal_of_text(AUTHORIZED_PRINCIPAL@) is None || principal_of_text(
            CONTROLLER_PRINCIPAL@,
        ) is None) ==> r == Err::<u64, EngineError>(EngineError::Validation(Invalid::Principal))
            && *final(store) == *old(store),
        principal_of_text(AUTHORIZED_PRINCIPAL@) is Some && principal_of_text(
            CONTROLLER_PRINCIPAL@,
        ) is Some ==> {
            let keep = principal_of_text(AUTHORIZED_PRINCIPAL@).unwrap();
            let ctl = principal_of_text(CONTROLLER_PRINCIPAL@).unwrap();
            let allowed = caller@ == keep || caller@ == ctl || has_authority(
                old(store).authorities@,
                caller@,
            );
            &&& !allowed ==> r == Err::<u64, EngineError>(
                EngineError::Authorization(Denial::NotAuthority),
            ) && *final(store) == *old(store)
            &&& allowed ==> r == Ok::<u64, EngineError>(
                count_others(old(store).authorities@, keep) as u64,
            ) && final(store).authorities@.len() == 1 && final(store).authorities@[0].id@ == keep
        },
{
    let authorized = match principal_from_text(AUTHORIZED_PRINCIPAL) {
        Some(a) => a,
        None => {
            return Err(EngineError::Validation(Invalid::Principal));
        },
    };
    let controller = match principal_from_text(CONTROLLER_PRINCIPAL) {
        Some(a) => a,
        None => {
            return Err(EngineError::Validation(Invalid::Principal));
        },
    };
    if !caller.same(&authorized) && !caller.same(&controller) && !crate::store::is_authority(
        store,
        caller,
    ) {
        return Err(EngineError::Authorization(Denial::NotAuthority));
    }
    let ghost aus = store.authorities@;
    let mut kept: Option<Authority> = None;
    let mut removed: u64 = 0;
    let mut i: usize = 0;
    while i < store.authorities.len()
        invariant
            store.authorities@ == aus,
            i <= aus.len(),
            removed == count_others(aus.subrange(0, i as int), authorized@),
            removed <= i,
            kept.is_some() ==> kept.unwrap().id@ == authorized@,
        decreases aus.len() - i,
    {
        let ghost pre = aus.subrange(0, i as int);
        let ghost next = aus.subrange(0, (i + 1) as int);
        assert(next.drop_last() =~= pre);
        if store.authorities[i].id.same(&authorized) {
            kept = Some(store.authorities[i].duplicate());
        } else {
            removed = removed + 1;
        }
        i = i + 1;
    }
    assert(aus.subrange(0, aus.len() as int) =~= aus);
    let survivor = match kept {
        Some(a) => a,
        None => Authority::fresh(authorized),
    };
    let mut fresh_list: Vec<Authority> = Vec::new();
    fresh_list.push(survivor);
    store.authorities = fresh_list;
    Ok(removed)
}

/// Sets up an empty system: the caller and the distinguished principal become
/// authorities (the anonymous identity stands in where that principal's text
/// does not parse).
pub fn initialize_system(store: &mut Store, caller: &Identity) -> (r: Result<(), EngineError>)
    requires
        old(store).wf(),
    ensures
        final(store).wf(),
        final(store).same_but_authorities(old(store)),
        caller@ == anonymous_bytes() ==> r == Err::<(), EngineError>(
            EngineError::Authorization(Denial::Anonymous),
        ) && *final(store) == *old(store),
        caller@ != anonymous_bytes() && old(store).authorities@.len() > 0 ==> r == Err::<
            (),
            EngineError,
        >(EngineError::Validation(Invalid::AlreadyInitialized)) && *final(store) == *old(store),
        caller@ != anonymous_bytes() && old(store).authorities@.len() == 0 ==> r.is_ok()
            && has_authority(final(store).authorities@, caller@) && has_authority(
            final(store).authorities@,
            match principal_of_text(AUTHORIZED_PRINCIPAL@) {
                Some(b) => b,
                None => anonymous_bytes(),
            },
        ),
{
    if caller.is_anonymous() {
        return Err(EngineError::Authorization(Denial::Anonymous));
    }
    if store.authorities.len() > 0 {
        return Err(EngineError::Validation(Invalid::AlreadyInitialized));
    }
    let ghost a0 = store.authorities@;
    let first = Authority::fresh(caller.duplicate());
    let ghost fv = first;
    crate::store::add_authority(store, first);
    proof {
        lemma_put_authority(a0, fv);
    }
    let specified = match principal_from_text(AUTHORIZED_PRINCIPAL) {
        Some(p) => p,
        None => Identity::anonymous(),
    };
    let ghost a1 = store.authorities@;
    let second = Authority::fresh(specified);
    let ghost sv = second;
    crate::store::add_authority(store, second);
    proof {
        lemma_put_authority(a1, sv);
    }
    crate::store::initialize_mock_data(store);
    Ok(())
}

pub open spec fn in_date_range(start: u64, end: u64) -> spec_fn(Report) -> bool {
    |r: Report| start <= r.date_submitted && r.date_submitted <= end
}

/// For authorities: the reports submitted between `start_date` and `end_date`
/// inclusive, by a full scan, in id order.
pub fn get_reports_by_date_range(store: &Store, caller: &Identity, start_date: u64, end_date: u64) -> (r:
    Result<Vec<Report>, EngineError>)
    requires
        store.wf(),
    ensures
        !has_authority(store.authorities@, caller@) ==> r == Err::<Vec<Report>, EngineError>(
            EngineError::Authorization(Denial::NotAuthority),
        ),
        has_authority(store.authorities@, caller@) ==> r.is_ok() && {
            let sel = scan_ids(store.reports@, in_date_range(start_date, end_date));
            &&& r.unwrap()@.len() == sel.len()
            &&& forall|k: int|
                0 <= k < sel.len() ==> (#[trigger] r.unwrap()@[k]).same(store.reports@[sel[k] - 1])
        },
{
    if !crate::store::is_authority(store, caller) {
        return Err(EngineError::Authorization(Denial::NotAuthority));
    }
    let ghost rs = store.reports@;
    let ghost p = in_date_range(start_date, end_date);
    let mut out: Vec<Report> = Vec::new();
    let mut i: usize = 0;
    while i < store.reports.len()
        invariant
            store.wf(),
            rs == store.reports@,
            p == in_date_range(start_date, end_date),
            i <= rs.len(),
            out@.len() == scan_ids(rs.subrange(0, i as int), p).len(),
            forall|k: int| 0 <= k < out@.len() ==> 1 <= #[trigger] scan_ids(rs.subrange(0, i as int), p)[k] <= i,
            forall|k: int|
                0 <= k < out@.len() ==> (#[trigger] out@[k]).same(
                    rs[scan_ids(rs.subrange(0, i as int), p)[k] - 1],
                ),
        decreases rs.len() - i,
    {
        let ghost pre = rs.subrange(0, i as int);
        let ghost next = rs.subrange(0, (i + 1) as int);
        assert(next.drop_last() =~= pre);
        assert(next.last() == rs[i as int]);
        assert(rs[i as int].id == i + 1);
        let d = store.reports[i].date_submitted;
        if start_date <= d && d <= end_date {
            out.push(store.reports[i].duplicate());
        }
        i = i + 1;
    }
    assert(rs.subrange(0, rs.len() as int) =~= rs);
    Ok(out)
}

/// Whether `ids` lists `x`.
fn lists(ids: &Vec<u64>, x: u64) -> (r: bool)
    ensures
        r == ids@.contains(x),
{
    let mut i: usize = 0;
    while i < ids.len()
        invariant
            i <= ids@.len(),
            forall|m: int| 0 <= m < i ==> ids@[m] != x,
        decreases ids@.len() - i,
    {
        if ids[i] == x {
            return true;
        }
        i = i + 1;
    }
    false
}

/// Report `i` is the first one that lists evidence file `eid`.
pub open spec fn first_holder(rs: Seq<Report>, eid: u64, i: int) -> bool {
    &&& 0 <= i < rs.len()
    &&& rs[i].evidence_files@.contains(eid)
    &&& forall|j: int| 0 <= j < i ==> !(#[trigger] rs[j]).evidence_files@.contains(eid)
}

/// Evidence file `evidence_id`, for the submitter of the first report that lists
/// it or for an authority; none otherwise.
pub fn get_evidence(store: &Store, caller: &Identity, evidence_id: u64) -> (r: Option<EvidenceFile>)
    requires
        store.wf(),
    ensures
        r.is_some() == (caller@ != anonymous_bytes() && 1 <= evidence_id
            <= store.evidence_files@.len() && exists|i: int|
            #[trigger] first_holder(store.reports@, evidence_id, i) && may_view(
                store,
                caller,
                store.reports@[i],
            )),
        r.is_some() ==> r.unwrap().same(store.evidence_files@[evidence_id - 1]),
{
    if caller.is_anonymous() {
        return None;
    }
    let evidence = match crate::store::get_evidence_file(store, evidence_id) {
        Some(e) => e,
        None => {
            return None;
        },
    };
    let mut i: usize = 0;
    while i < store.reports.len()
        invariant
            store.wf(),
            caller@ != anonymous_bytes(),
            1 <= evidence_id <= store.evidence_files@.len(),
            evidence.same(store.evidence_files@[evidence_id - 1]),
            i <= store.reports@.len(),
            forall|j: int| 0 <= j < i ==> !(#[trigger] store.reports@[j]).evidence_files@.contains(
                evidence_id,
            ),
        decreases store.reports@.len() - i,
    {
        if lists(&store.reports[i].evidence_files, evidence_id) {
            proof {
                assert(first_holder(store.reports@, evidence_id, i as int));
                assert forall|k: int| #[trigger] first_holder(store.reports@, evidence_id, k) implies k
                    == i by {
                    if k < i {
                        assert(!store.reports@[k].evidence_files@.contains(evidence_id));
                    } else if k > i {
                        assert(!store.reports@[i as int].evidence_files@.contains(evidence_id));
                    }
                }
            }
            if store.reports[i].submitter_id.same(caller) || crate::store::is_authority(
                store,
                caller,
            ) {
                assert(first_holder(store.reports@, evidence_id, i as int) && may_view(
                    store,
                    caller,
                    store.reports@[i as int],
                ));
                return Some(evidence);
            } else {
                return None;
            }
        }
        i = i + 1;
    }
    assert forall|k: int| !#[trigger] first_holder(store.reports@, evidence_id, k) by {
        if 0 <= k < store.reports@.len() {
            assert(!store.reports@[k].evidence_files@.contains(evidence_id));
        }
    }
    None
}

/// The ids among `ids` that name a stored evidence file, in list order.
pub open spec fn present_ids(ids: Seq<u64>, n: nat) -> Seq<u64>
    decreases ids.len(),
{
    if ids.len() == 0 {
        Seq::empty()
    } else {
        let before = present_ids(ids.drop_last(), n);
        if 1 <= ids.last() <= n {
            before.push(ids.last())
        } else {
            before
        }
    }
}

/// The evidence files of report `report_id`, for its submitter or an authority;
/// ids without a stored file are skipped.
pub fn get_report_evidence(store: &Store, caller: &Identity, report_id: u64) -> (r: Vec<
    EvidenceFile,
>)
    requires
        store.wf(),
    ensures
        !(caller@ != anonymous_bytes() && 1 <= report_id <= store.reports@.len() && may_view(
            store,
            caller,
            store.reports@[report_id - 1],
        )) ==> r@.len() == 0,
        caller@ != anonymous_bytes() && 1 <= report_id <= store.reports@.len() && may_view(
            store,
            caller,
            store.reports@[report_id - 1],
        ) ==> {
            let sel = present_ids(
                store.reports@[report_id - 1].evidence_files@,
                store.evidence_files@.len(),
            );
            &&& r@.len() == sel.len()
            &&& forall|k: int|
                0 <= k < sel.len() ==> (#[trigger] r@[k]).same(store.evidence_files@[sel[k] - 1])
        },
{
    if caller.is_anonymous() {
        return Vec::new();
    }
    if report_id == 0 || report_id > store.reports.len() as u64 {
        return Vec::new();
    }
    let ri = (report_id - 1) as usize;
    if !store.reports[ri].submitter_id.same(caller) && !crate::store::is_authority(store, caller) {
        return Vec::new();
    }
    let ids = &store.reports[ri].evidence_files;
    let ghost n = store.evidence_files@.len();
    let mut out: Vec<EvidenceFile> = Vec::new();
    let mut k: usize = 0;
    while k < ids.len()
        invariant
            store.wf(),
            n == store.evidence_files@.len(),
            k <= ids@.len(),
            out@.len() == present_ids(ids@.subrange(0, k as int), n).len(),
            forall|m: int|
                0 <= m < out@.len() ==> 1 <= #[trigger] present_ids(ids@.subrange(0, k as int), n)[m]
                    <= n,
            forall|m: int|
                0 <= m < out@.len() ==> (#[trigger] out@[m]).same(
                    store.evidence_files@[present_ids(ids@.subrange(0, k as int), n)[m] - 1],
                ),
        decreases ids@.len() - k,
    {
        let ghost pre = ids@.subrange(0, k as int);
        let ghost next = ids@.subrange(0, (k + 1) as int);
        assert(next.drop_last() =~= pre);
        assert(next.last() == ids@[k as int]);
        match crate::store::get_evidence_file(store, ids[k]) {
            Some(e) => {
                out.push(e);
            },
            None => {},
        }
        k = k + 1;
    }
    assert(ids@.subrange(0, ids@.len() as int) =~= ids@);
    out
}

} // verus!

verus! {

/// `sorted` holds one copy of each report of `rs`, newest first.
pub open spec fn newest_first_order(sorted: Seq<Report>, rs: Seq<Report>) -> bool {
    &&& sorted.len() == rs.len()
    &&& forall|k: int|
        0 <= k < sorted.len() ==> 1 <= (#[trigger] sorted[k]).id <= rs.len() && sorted[k].same(
            rs[sorted[k].id - 1],
        )
    &&& forall|a: int, b: int|
        0 <= a < sorted.len() && 0 <= b < sorted.len() && a != b ==> (#[trigger] sorted[a]).id
            != (#[trigger] sorted[b]).id
    &&& forall|a: int, b: int|
        0 <= a < b < sorted.len() ==> sorted[a].date_submitted >= sorted[b].date_submitted
}

/// Reordering copies of the reports, listed in id order, keeps one copy of each.
pub proof fn lemma_reordered_reports(before: Seq<Report>, after: Seq<Report>, rs: Seq<Report>)
    requires
        crate::index::ids_dense(rs),
        after.to_multiset() == before.to_multiset(),
        after.len() == before.len(),
        before.len() == rs.len(),
        forall|i: int| 0 <= i < before.len() ==> (#[trigger] before[i]).same(rs[i]),
        forall|a: int, b: int|
            0 <= a < b < after.len() ==> after[a].date_submitted >= after[b].date_submitted,
    ensures
        newest_first_order(after, rs),
{
    after.to_multiset_ensures();
    before.to_multiset_ensures();
    assert(before.no_duplicates()) by {
        assert forall|i: int, j: int| 0 <= i < before.len() && 0 <= j < before.len() && i != j
            implies before[i] != before[j] by {
            assert(before[i].id == rs[i].id);
            assert(before[j].id == rs[j].id);
        }
    }
    before.lemma_multiset_has_no_duplicates();
    after.lemma_multiset_has_no_duplicates_conv();
    assert forall|k: int| 0 <= k < after.len() implies exists|j: int|
        0 <= j < before.len() && before[j] == #[trigger] after[k] by {
        assert(after.to_multiset().count(after[k]) > 0);
        assert(before.contains(after[k]));
    }
    assert forall|k: int| 0 <= k < after.len() implies 1 <= (#[trigger] after[k]).id <= rs.len()
        && after[k].same(rs[after[k].id - 1]) by {
        let j = choose|j: int| 0 <= j < before.len() && before[j] == after[k];
        assert(before[j].same(rs[j]));
        assert(rs[j].id == j + 1);
    }
    assert forall|a: int, b: int|
        0 <= a < after.len() && 0 <= b < after.len() && a != b implies (#[trigger] after[a]).id
        != (#[trigger] after[b]).id by {
        let ja = choose|j: int| 0 <= j < before.len() && before[j] == after[a];
        let jb = choose|j: int| 0 <= j < before.len() && before[j] == after[b];
        assert(before[ja].same(rs[ja]) && rs[ja].id == ja + 1);
        assert(before[jb].same(rs[jb]) && rs[jb].id == jb + 1);
        assert(after[a] != after[b]);
    }
}

/// Relies on `slice::sort_by`, a stable sort (here by submission time, newest
/// first): it reorders the items and keeps each one.
#[verifier::external_body]
fn sort_newest_first(v: &mut Vec<Report>)
    ensures
        final(v)@.len() == old(v)@.len(),
        final(v)@.to_multiset() == old(v)@.to_multiset(),
        forall|a: int, b: int|
            0 <= a < b < final(v)@.len() ==> final(v)@[a].date_submitted >= final(v)@[b].date_submitted,
{
    v.sort_by(|a, b| b.date_submitted.cmp(&a.date_submitted))
}

/// For authorities: page `page` of `page_size` reports, newest first, and the
/// number of reports. A page past the end, or one whose start does not fit in
/// `u64`, is empty.
pub fn get_reports_paginated(store: &Store, caller: &Identity, page: u64, page_size: u64) -> (r:
    Result<(Vec<Report>, u64), EngineError>)
    requires
        store.wf(),
    ensures
        !has_authority(store.authorities@, caller@) ==> r == Err::<(Vec<Report>, u64), EngineError>(
            EngineError::Authorization(Denial::NotAuthority),
        ),
        has_authority(store.authorities@, caller@) ==> r.is_ok() && {
            let items = r.unwrap().0;
            let total = r.unwrap().1;
            let start = page * page_size;
            &&& total == store.reports@.len()
            &&& start >= total ==> items@.len() == 0
            &&& start < total ==> items@.len() == if start + page_size <= total {
                page_size as int
            } else {
                total - start
            }
            &&& exists|sorted: Seq<Report>|
                #[trigger] newest_first_order(sorted, store.reports@) && forall|k: int|
                    0 <= k < items@.len() ==> (#[trigger] items@[k]).same(sorted[start + k])
        },
{
    if !crate::store::is_authority(store, caller) {
        return Err(EngineError::Authorization(Denial::NotAuthority));
    }
    let mut all = crate::store::get_all_reports(store);
    let ghost before = all@;
    let total = all.len() as u64;
    sort_newest_first(&mut all);
    proof {
        lemma_reordered_reports(before, all@, store.reports@);
    }
    let mut items: Vec<Report> = Vec::new();
    if page_size == 0 || page > u64::MAX / page_size {
        if page_size != 0 {
            assert(page * page_size > u64::MAX) by (nonlinear_arith)
                requires
                    page > u64::MAX / page_size,
                    page_size > 0,
            ;
        }
        return Ok((items, total));
    }
    assert(page * page_size <= u64::MAX) by (nonlinear_arith)
        requires
            page <= u64::MAX / page_size,
            page_size > 0,
    ;
    let start = page * page_size;
    if start >= total {
        return Ok((items, total));
    }
    let end = if page_size <= total - start {
        start + page_size
    } else {
        total
    };
    let mut k: u64 = start;
    while k < end
        invariant
            start <= k <= end <= total,
            total == all@.len(),
            items@.len() == k - start,
            forall|a: int|
                0 <= a < items@.len() ==> (#[trigger] items@[a]).same(all@[start + a]),
            forall|a: int, b: int|
                0 <= a < b < all@.len() ==> all@[a].date_submitted >= all@[b].date_submitted,
            newest_first_order(all@, store.reports@),
        decreases end - k,
    {
        items.push(all[k as usize].duplicate());
        k = k + 1;
    }
    assert(newest_first_order(all@, store.reports@));
    Ok((items, total))
}

} // verus!

verus! {

/// Thirty days in nanoseconds.
pub const MONTH_NS: u64 = 2592000000000000;

/// How many months back the trend reaches.
pub const TREND_MONTHS: usize = 12;

/// Reports submitted `m` whole months (of thirty days) before `now`.
pub open spec fn submitted_months_ago(now: u64, m: int) -> spec_fn(Report) -> bool {
    |r: Report| r.date_submitted <= now && (now - r.date_submitted) / (MONTH_NS as int) == m
}

/// For each of the last twelve months, how many reports were submitted in it;
/// entry `m` counts those submitted `m` months before `now`.
pub fn monthly_submissions(store: &Store, now: u64) -> (r: Vec<u64>)
    requires
        store.wf(),
    ensures
        r@.len() == TREND_MONTHS,
        forall|m: int|
            0 <= m < TREND_MONTHS ==> #[trigger] r@[m] == scan_ids(
                store.reports@,
                submitted_months_ago(now, m),
            ).len(),
{
    let ghost rs = store.reports@;
    let mut counts: Vec<u64> = vec![0u64; TREND_MONTHS];
    proof {
        assert forall|m: int| 0 <= m < TREND_MONTHS implies #[trigger] counts@[m] == scan_ids(
            rs.subrange(0, 0),
            submitted_months_ago(now, m),
        ).len() by {}
    }
    let mut i: usize = 0;
    while i < store.reports.len()
        invariant
            store.wf(),
            rs == store.reports@,
            i <= rs.len(),
            counts@.len() == TREND_MONTHS,
            forall|m: int|
                0 <= m < TREND_MONTHS ==> #[trigger] counts@[m] == scan_ids(
                    rs.subrange(0, i as int),
                    submitted_months_ago(now, m),
                ).len(),
        decreases rs.len() - i,
    {
        let ghost pre = rs.subrange(0, i as int);
        let ghost next = rs.subrange(0, (i + 1) as int);
        assert(next.drop_last() =~= pre);
        assert(next.last() == rs[i as int]);
        let d = store.reports[i].date_submitted;
        if d <= now {
            let mo = (now - d) / MONTH_NS;
            if mo < TREND_MONTHS as u64 {
                proof {
                    crate::handlers::lemma_scan_bounded(pre, submitted_months_ago(now, mo as int));
                }
                let c = counts[mo as usize];
                counts.set(mo as usize, c + 1);
            }
        }
        i = i + 1;
    }
    assert(rs.subrange(0, rs.len() as int) =~= rs);
    counts
}

/// The sum of all stakes, or `u64::MAX` where it does not fit.
pub open spec fn stake_sum(rs: Seq<Report>) -> int
    decreases rs.len(),
{
    if rs.len() == 0 {
        0
    } else {
        stake_sum(rs.drop_last()) + rs.last().stake_amount
    }
}

/// The total of all stakes, capped at `u64::MAX`.
pub fn total_staked_amount(store: &Store) -> (r: u64)
    ensures
        r == if stake_sum(store.reports@) <= u64::MAX {
            stake_sum(store.reports@)
        } else {
            u64::MAX as int
        },
{
    let ghost rs = store.reports@;
    let mut total: u64 = 0;
    let mut capped = false;
    let mut i: usize = 0;
    while i < store.reports.len()
        invariant
            rs == store.reports@,
            i <= rs.len(),
            !capped ==> total == stake_sum(rs.subrange(0, i as int)),
            capped ==> total == u64::MAX && stake_sum(rs.subrange(0, i as int)) > u64::MAX,
        decreases rs.len() - i,
    {
        let ghost pre = rs.subrange(0, i as int);
        let ghost next = rs.subrange(0, (i + 1) as int);
        assert(next.drop_last() =~= pre);
        assert(next.last() == rs[i as int]);
        let s = store.reports[i].stake_amount;
        if !capped {
            if total > u64::MAX - s {
                capped = true;
                total = u64::MAX;
            } else {
                total = total + s;
            }
        }
        i = i + 1;
    }
    assert(rs.subrange(0, rs.len() as int) =~= rs);
    total
}

/// How many reports of one category are in each settled or open state.
pub struct CategoryCount {
    pub category: String,
    pub pending: u64,
    pub approved: u64,
    pub rejected: u64,
}

pub open spec fn in_category_with(c: Seq<char>, s: ReportStatus) -> spec_fn(Report) -> bool {
    |r: Report| r.category@ == c && r.status == s
}

/// `cs` counts, for each category it lists, the reports of `rs` by status.
pub open spec fn counts_ok(cs: Seq<CategoryCount>, rs: Seq<Report>) -> bool {
    &&& forall|a: int, b: int|
        0 <= a < cs.len() && 0 <= b < cs.len() && a != b ==> (#[trigger] cs[a]).category@ != (
        #[trigger] cs[b]).category@
    &&& forall|k: int|
        0 <= k < cs.len() ==> {
            &&& (#[trigger] cs[k]).pending == scan_ids(
                rs,
                in_category_with(cs[k].category@, ReportStatus::Pending),
            ).len()
            &&& cs[k].approved == scan_ids(
                rs,
                in_category_with(cs[k].category@, ReportStatus::Approved),
            ).len()
            &&& cs[k].rejected == scan_ids(
                rs,
                in_category_with(cs[k].category@, ReportStatus::Rejected),
            ).len()
        }
    &&& forall|i: int|
        0 <= i < rs.len() ==> exists|k: int|
            0 <= k < cs.len() && (#[trigger] cs[k]).category@ == (#[trigger] rs[i]).category@
}

/// A scan by a test that no record passes finds nothing.
pub proof fn lemma_scan_none(rs: Seq<Report>, p: spec_fn(Report) -> bool)
    requires
        forall|i: int| 0 <= i < rs.len() ==> !p(#[trigger] rs[i]),
    ensures
        scan_ids(rs, p).len() == 0,
    decreases rs.len(),
{
    if rs.len() > 0 {
        let pre = rs.drop_last();
        assert forall|i: int| 0 <= i < pre.len() implies !p(#[trigger] pre[i]) by {
            assert(pre[i] == rs[i]);
        }
        lemma_scan_none(pre, p);
        assert(!p(rs[rs.len() - 1]));
    }
}

/// Report counts by category and status, categories in the order they first occur.
pub fn category_breakdown(store: &Store) -> (r: Vec<CategoryCount>)
    requires
        store.wf(),
    ensures
        counts_ok(r@, store.reports@),
{
    let ghost rs = store.reports@;
    let mut cs: Vec<CategoryCount> = Vec::new();
    let mut i: usize = 0;
    while i < store.reports.len()
        invariant
            store.wf(),
            rs == store.reports@,
            i <= rs.len(),
            cs@.len() <= i,
            counts_ok(cs@, rs.subrange(0, i as int)),
        decreases rs.len() - i,
    {
        let ghost pre = rs.subrange(0, i as int);
        let ghost next = rs.subrange(0, (i + 1) as int);
        let ghost c0 = cs@;
        assert(next.drop_last() =~= pre);
        assert(next.last() == rs[i as int]);
        let rep = &store.reports[i];
        let mut k: usize = 0;
        while k < cs.len()
            invariant
                k <= cs@.len(),
                forall|m: int| 0 <= m < k ==> cs@[m].category@ != rep.category@,
            ensures
                k <= cs@.len(),
                forall|m: int| 0 <= m < k ==> cs@[m].category@ != rep.category@,
                k < cs@.len() ==> cs@[k as int].category@ == rep.category@,
            decreases cs@.len() - k,
        {
            if cs[k].category == rep.category {
                break;
            }
            k = k + 1;
        }
        proof {
            crate::handlers::lemma_scan_bounded(pre, in_category_with(rep.category@, ReportStatus::Pending));
            crate::handlers::lemma_scan_bounded(pre, in_category_with(rep.category@, ReportStatus::Approved));
            crate::handlers::lemma_scan_bounded(pre, in_category_with(rep.category@, ReportStatus::Rejected));
        }
        if k == cs.len() {
            proof {
                assert forall|j: int| 0 <= j < pre.len() implies pre[j].category@ != rep.category@ by {
                    assert(pre[j] == rs[j]);
                    let w = choose|w: int| 0 <= w < c0.len() && (#[trigger] c0[w]).category@ == (#[trigger] pre[j]).category@;
                }
                lemma_scan_none(pre, in_category_with(rep.category@, ReportStatus::Pending));
                lemma_scan_none(pre, in_category_with(rep.category@, ReportStatus::Approved));
                lemma_scan_none(pre, in_category_with(rep.category@, ReportStatus::Rejected));
            }
            cs.push(CategoryCount { category: rep.category.clone(), pending: 0, approved: 0, rejected: 0 });
        }
        proof {
            assert(cs@[k as int].category@ == rep.category@);
        }
        match rep.status {
            ReportStatus::Pending => cs[k].pending = cs[k].pending + 1,
            ReportStatus::Approved => cs[k].approved = cs[k].approved + 1,
            ReportStatus::Rejected => cs[k].rejected = cs[k].rejected + 1,
            ReportStatus::UnderReview => {},
        }
        proof {
            assert forall|a: int| 0 <= a < cs@.len() && a != k implies #[trigger] cs@[a] == c0[a] by {}
            assert forall|j: int| 0 <= j < next.len() implies exists|w: int|
                0 <= w < cs@.len() && (#[trigger] cs@[w]).category@ == (#[trigger] next[j]).category@ by {
                if j < pre.len() {
                    assert(next[j] == pre[j]);
                    let w = choose|w: int| 0 <= w < c0.len() && (#[trigger] c0[w]).category@ == (#[trigger] pre[j]).category@;
                    assert(cs@[w].category@ == c0[w].category@);
                } else {
                    assert(cs@[k as int].category@ == next[j].category@);
                }
            }
        }
        i = i + 1;
    }
    assert(rs.subrange(0, rs.len() as int) =~= rs);
    cs
}

} // verus!
