//! The report lifecycle and stake settlement: the operations that callers invoke.
//! Every operation takes the caller's identity and, where it stamps a record, the
//! current time; both come from the host.
use crate::index::{keyed, scan_ids, status_key, submitter_key};
use crate::store::{
    Store, authorities_after_put, authority_at, authority_index, authority_of, create_message,
    create_or_update_user, find_authority, find_user, get_report as stored_report, has_authority,
    has_user, lemma_put_authority, lemma_put_keeps_distinct, lemma_user_index, ledger_value,
    update_report, user_at, user_index, user_of, users_after_put,
};
use crate::text::{blank, char_count, decimal, decimal_of, is_blank, is_text, lower_of, lowercase, trim_of, trimmed};
use crate::types::{
    Authority, Denial, EngineError, Identity, Invalid, Location, Message, MessageSender, Missing,
    Report, ReportStatus, User, anonymous_bytes, copy_text,
};
use vstd::prelude::*;

verus! {

/// Tokens a user gets when first seen.
pub const NEW_USER_BONUS: u64 = 100;

pub const MAX_TITLE_CHARS: usize = 200;

pub const MAX_DESCRIPTION_CHARS: usize = 5000;

pub const MIN_STAKE: u64 = 5;

pub const MAX_STAKE: u64 = 1000;

pub const MAX_EVIDENCE_COUNT: u32 = 10;

/// How many Pending reports a user may have at once.
pub const MAX_PENDING_REPORTS: usize = 5;

/// The base reward multiplier.
pub const BASE_MULTIPLIER: u64 = 10;

/// Whether the caller may act at all, and as an authority.
pub open spec fn authority_denial(store: &Store, caller: &Identity) -> Option<Denial> {
    if caller@ == anonymous_bytes() {
        Some(Denial::Anonymous)
    } else if !has_authority(store.authorities@, caller@) {
        Some(Denial::NotAuthority)
    } else {
        None
    }
}

/// Succeeds for a registered, non-anonymous authority.
pub fn ensure_authority(store: &Store, caller: &Identity) -> (r: Result<(), EngineError>)
    requires
        store.wf(),
    ensures
        r == match authority_denial(store, caller) {
            Some(d) => Err::<(), EngineError>(EngineError::Authorization(d)),
            None => Ok(()),
        },
{
    if caller.is_anonymous() {
        return Err(EngineError::Authorization(Denial::Anonymous));
    }
    if !crate::store::is_authority(store, caller) {
        return Err(EngineError::Authorization(Denial::NotAuthority));
    }
    Ok(())
}

/// Succeeds for any caller but the anonymous one.
pub fn ensure_authenticated(caller: &Identity) -> (r: Result<(), EngineError>)
    ensures
        r == if caller@ == anonymous_bytes() {
            Err::<(), EngineError>(EngineError::Authorization(Denial::Anonymous))
        } else {
            Ok(())
        },
{
    if caller.is_anonymous() {
        Err(EngineError::Authorization(Denial::Anonymous))
    } else {
        Ok(())
    }
}

/// The categories a report may have, in lower case.
pub open spec fn category_allowed(c: Seq<char>) -> bool {
    ||| c == "environmental"@
    ||| c == "environment"@
    ||| c == "fraud"@
    ||| c == "cybercrime"@
    ||| c == "corruption"@
    ||| c == "safety"@
    ||| c == "other"@
    ||| c == "acid attacks"@
    ||| c == "bribery"@
    ||| c == "domestic_violence"@
    ||| c == "drug_crimes"@
    ||| c == "human_trafficking"@
    ||| c == "kidnapping"@
    ||| c == "money_laundering"@
    ||| c == "murder"@
    ||| c == "sexual_assault"@
    ||| c == "theft"@
    ||| c == "violence"@
    ||| c == "harassment"@
}

/// Whether a lower-cased category is on the allow-list.
pub fn is_allowed_category(c: &String) -> (r: bool)
    ensures
        r == category_allowed(c@),
{
    is_text(c, "environmental") || is_text(c, "environment") || is_text(c, "fraud") || is_text(
        c,
        "cybercrime",
    ) || is_text(c, "corruption") || is_text(c, "safety") || is_text(c, "other") || is_text(
        c,
        "acid attacks",
    ) || is_text(c, "bribery") || is_text(c, "domestic_violence") || is_text(c, "drug_crimes")
        || is_text(c, "human_trafficking") || is_text(c, "kidnapping") || is_text(
        c,
        "money_laundering",
    ) || is_text(c, "murder") || is_text(c, "sexual_assault") || is_text(c, "theft") || is_text(
        c,
        "violence",
    ) || is_text(c, "harassment")
}

/// The first rule that a report's fields break, if any.
pub open spec fn report_input_error(
    title: Seq<char>,
    description: Seq<char>,
    category: Seq<char>,
    stake_amount: u64,
) -> Option<Invalid> {
    if is_blank(title) {
        Some(Invalid::EmptyTitle)
    } else if title.len() > MAX_TITLE_CHARS {
        Some(Invalid::TitleTooLong)
    } else if is_blank(description) {
        Some(Invalid::EmptyDescription)
    } else if description.len() > MAX_DESCRIPTION_CHARS {
        Some(Invalid::DescriptionTooLong)
    } else if !category_allowed(lower_of(category)) {
        Some(Invalid::Category)
    } else if stake_amount < MIN_STAKE {
        Some(Invalid::StakeTooLow)
    } else if stake_amount > MAX_STAKE {
        Some(Invalid::StakeTooHigh)
    } else {
        None
    }
}

/// Checks the fields of a new report.
pub fn validate_report_input(title: &str, description: &str, category: &str, stake_amount: u64) -> (r:
    Result<(), EngineError>)
    ensures
        r == match report_input_error(title@, description@, category@, stake_amount) {
            Some(e) => Err::<(), EngineError>(EngineError::Validation(e)),
            None => Ok(()),
        },
{
    if blank(title) {
        return Err(EngineError::Validation(Invalid::EmptyTitle));
    }
    if title.unicode_len() > MAX_TITLE_CHARS {
        return Err(EngineError::Validation(Invalid::TitleTooLong));
    }
    if blank(description) {
        return Err(EngineError::Validation(Invalid::EmptyDescription));
    }
    if description.unicode_len() > MAX_DESCRIPTION_CHARS {
        return Err(EngineError::Validation(Invalid::DescriptionTooLong));
    }
    let lowered = lowercase(category);
    if !is_allowed_category(&lowered) {
        return Err(EngineError::Validation(Invalid::Category));
    }
    if stake_amount < MIN_STAKE {
        return Err(EngineError::Validation(Invalid::StakeTooLow));
    }
    if stake_amount > MAX_STAKE {
        return Err(EngineError::Validation(Invalid::StakeTooHigh));
    }
    Ok(())
}

/// The bonus multiplier for well-evidenced reports.
pub open spec fn quality_bonus(evidence_count: u32) -> u64 {
    if evidence_count >= 3 {
        2
    } else {
        0
    }
}

/// The bonus multiplier for large stakes.
pub open spec fn stake_bonus(stake: u64) -> u64 {
    if stake >= 50 {
        3
    } else if stake >= 20 {
        1
    } else {
        0
    }
}

/// The reward paid on approval.
pub open spec fn reward_of(stake: u64, evidence_count: u32) -> int {
    stake * (BASE_MULTIPLIER + quality_bonus(evidence_count) + stake_bonus(stake))
}

/// The reward for a stake and an evidence count; the stake must leave room for
/// the largest multiplier.
pub fn calculate_reward(stake: u64, evidence_count: u32) -> (r: u64)
    requires
        stake <= u64::MAX / 16,
    ensures
        r == reward_of(stake, evidence_count),
        r <= 15 * stake,
{
    let quality: u64 = if evidence_count >= 3 {
        2
    } else {
        0
    };
    let bonus: u64 = if stake >= 50 {
        3
    } else if stake >= 20 {
        1
    } else {
        0
    };
    assert(stake * (BASE_MULTIPLIER + quality + bonus) <= stake * 15) by (nonlinear_arith)
        requires
            BASE_MULTIPLIER + quality + bonus <= 15,
    ;
    stake * (BASE_MULTIPLIER + quality + bonus)
}

// Texts of the system messages.
pub open spec fn notes_suffix(notes: Option<String>) -> Seq<char> {
    match notes {
        Some(n) => " Authority notes: "@ + n@,
        None => Seq::empty(),
    }
}

pub open spec fn submission_notice(stake: u64) -> Seq<char> {
    "Report submitted with a stake of "@ + decimal_of(stake as nat)
        + " tokens. Your report is now pending review."@
}

pub open spec fn approval_notice(stake: u64, reward: u64, notes: Option<String>) -> Seq<char> {
    "Report has been verified and approved! "@ + decimal_of(stake as nat) + " tokens returned + "@
        + decimal_of(reward as nat) + " tokens reward = "@ + decimal_of((stake + reward) as nat)
        + " total tokens added to your account."@ + notes_suffix(notes)
}

pub open spec fn rejection_notice(stake: u64, reason: Seq<char>) -> Seq<char> {
    "Report has been reviewed and rejected. Your staked "@ + decimal_of(stake as nat)
        + " tokens have been forfeited. Reason: "@ + reason
}

pub open spec fn review_notice(notes: Option<String>) -> Seq<char> {
    "Your report is now under review by authorities."@ + notes_suffix(notes)
}

fn notes_text(notes: &Option<String>) -> (r: String)
    ensures
        r@ == notes_suffix(*notes),
{
    match notes {
        Some(n) => String::from_str(" Authority notes: ").concat(n.as_str()),
        None => String::new(),
    }
}

fn submission_text(stake: u64) -> (r: String)
    ensures
        r@ == submission_notice(stake),
{
    String::from_str("Report submitted with a stake of ").concat(decimal(stake).as_str()).concat(
        " tokens. Your report is now pending review.",
    )
}

fn approval_text(stake: u64, reward: u64, notes: &Option<String>) -> (r: String)
    requires
        stake + reward <= u64::MAX,
    ensures
        r@ == approval_notice(stake, reward, *notes),
{
    String::from_str("Report has been verified and approved! ").concat(decimal(stake).as_str()).concat(
        " tokens returned + ",
    ).concat(decimal(reward).as_str()).concat(" tokens reward = ").concat(
        decimal(stake + reward).as_str(),
    ).concat(" total tokens added to your account.").concat(notes_text(notes).as_str())
}

fn rejection_text(stake: u64, reason: &String) -> (r: String)
    ensures
        r@ == rejection_notice(stake, reason@),
{
    String::from_str("Report has been reviewed and rejected. Your staked ").concat(
        decimal(stake).as_str(),
    ).concat(" tokens have been forfeited. Reason: ").concat(reason.as_str())
}

fn review_text(notes: &Option<String>) -> (r: String)
    ensures
        r@ == review_notice(*notes),
{
    String::from_str("Your report is now under review by authorities.").concat(
        notes_text(notes).as_str(),
    )
}

/// `m` is a system message with the given id, report, text and time.
pub open spec fn is_system_message(
    m: Message,
    id: int,
    report_id: u64,
    text: Seq<char>,
    now: u64,
) -> bool {
    &&& m.id == id
    &&& m.report_id == report_id
    &&& m.sender is System
    &&& m.content@ == text
    &&& m.timestamp == now
    &&& m.attachment.is_none()
}

/// `new` has one message more than `old`: a system message with `text`.
pub open spec fn appended_system_message(
    old: &Store,
    new: &Store,
    report_id: u64,
    text: Seq<char>,
    now: u64,
) -> bool {
    &&& new.messages@.len() == old.messages@.len() + 1
    &&& new.messages@.drop_last() == old.messages@
    &&& is_system_message(new.messages@.last(), old.next_message_id(), report_id, text, now)
}

/// Appends a system message about report `report_id`.
fn post_system_message(store: &mut Store, report_id: u64, text: String, now: u64)
    requires
        old(store).wf(),
        old(store).messages@.len() + 1 < u64::MAX,
    ensures
        final(store).wf(),
        final(store).same_but_messages(old(store)),
        appended_system_message(old(store), final(store), report_id, text@, now),
{
    let m = Message {
        id: 0,
        report_id,
        sender: MessageSender::System,
        content: text,
        timestamp: now,
        attachment: None,
    };
    create_message(store, &m);
}

/// How many of the listed reports are Approved; ids without a report count as not approved.
pub open spec fn approved_among(rs: Seq<Report>, ids: Seq<u64>) -> nat
    decreases ids.len(),
{
    if ids.len() == 0 {
        0
    } else {
        approved_among(rs, ids.drop_last()) + if 1 <= ids.last() <= rs.len() && rs[ids.last()
            - 1].status == ReportStatus::Approved {
            1nat
        } else {
            0nat
        }
    }
}

pub proof fn lemma_approved_bounded(rs: Seq<Report>, ids: Seq<u64>)
    ensures
        approved_among(rs, ids) <= ids.len(),
    decreases ids.len(),
{
    if ids.len() > 0 {
        lemma_approved_bounded(rs, ids.drop_last());
    }
}

/// Counts, by the reports' current status, how many of `reviewed` are Approved.
pub fn count_approved(store: &Store, reviewed: &Vec<u64>) -> (r: u64)
    requires
        store.wf(),
    ensures
        r == approved_among(store.reports@, reviewed@),
{
    let mut count: u64 = 0;
    let mut i: usize = 0;
    while i < reviewed.len()
        invariant
            store.wf(),
            i <= reviewed@.len(),
            count == approved_among(store.reports@, reviewed@.subrange(0, i as int)),
        decreases reviewed@.len() - i,
    {
        let ghost pre = reviewed@.subrange(0, i as int);
        let ghost next = reviewed@.subrange(0, (i + 1) as int);
        assert(next.drop_last() =~= pre);
        proof {
            lemma_approved_bounded(store.reports@, pre);
        }
        let id = reviewed[i];
        if id >= 1 && id <= store.reports.len() as u64 {
            if store.reports[(id - 1) as usize].status == ReportStatus::Approved {
                count = count + 1;
            }
        }
        i = i + 1;
    }
    assert(reviewed@.subrange(0, reviewed@.len() as int) =~= reviewed@);
    count
}

/// Authority `id`'s approvals, derived from the current status of the reports
/// it reviewed, and the number it reviewed; its approval rate is their ratio
/// times 100 (0 with no reviews).
pub fn authority_approval(store: &Store, id: &Identity) -> (r: Option<(u64, u64)>)
    requires
        store.wf(),
    ensures
        r.is_some() == has_authority(store.authorities@, id@),
        r.is_some() ==> {
            let a = authority_of(store.authorities@, id@);
            &&& r.unwrap().0 == approved_among(store.reports@, a.reports_reviewed@)
            &&& r.unwrap().1 == a.reports_reviewed@.len()
        },
{
    match find_authority(&store.authorities, id) {
        Some(pos) => {
            proof {
                crate::store::lemma_authority_index(store.authorities@, id@, pos as int);
            }
            let approved = count_approved(store, &store.authorities[pos].reports_reviewed);
            Some((approved, store.authorities[pos].reports_reviewed.len() as u64))
        },
        None => None,
    }
}

/// Adds `report_id` to the review list of authority `caller` and recounts its approvals.
fn record_review(store: &mut Store, caller: &Identity, report_id: u64)
    requires
        old(store).wf(),
    ensures
        final(store).wf(),
        final(store).same_but_authorities(old(store)),
        has_authority(old(store).authorities@, caller@) ==> {
            let a = authority_of(old(store).authorities@, caller@);
            let a2 = authority_of(final(store).authorities@, caller@);
            &&& final(store).authorities@ == old(store).authorities@.update(
                authority_index(old(store).authorities@, caller@),
                a2,
            )
            &&& a2.id == a.id
            &&& a2.reports_reviewed@ == a.reports_reviewed@.push(report_id)
            &&& a2.approved_count == approved_among(final(store).reports@, a2.reports_reviewed@)
        },
        !has_authority(old(store).authorities@, caller@) ==> final(store).authorities@ == old(store).authorities@,
{
    let ghost aus = store.authorities@;
    match find_authority(&store.authorities, caller) {
        Some(pos) => {
            proof {
                crate::store::lemma_authority_index(aus, caller@, pos as int);
            }
            store.authorities[pos].reports_reviewed.push(report_id);
            let count = count_approved(store, &store.authorities[pos].reports_reviewed);
            store.authorities[pos].approved_count = count;
            proof {
                let a2 = store.authorities@[pos as int];
                assert(store.authorities@ == aus.update(pos as int, a2));
                assert(authorities_after_put(aus, a2) == store.authorities@);
                lemma_put_authority(aus, a2);
            }
        },
        None => {},
    }
}

} // verus!

verus! {

/// Reports, messages and evidence files only grow: records keep their place and
/// id, and the next ids never go down.
pub open spec fn ids_advance(old: &Store, new: &Store) -> bool {
    &&& new.reports@.len() >= old.reports@.len()
    &&& new.messages@.len() >= old.messages@.len()
    &&& new.evidence_files@.len() >= old.evidence_files@.len()
    &&& forall|i: int| 0 <= i < old.reports@.len() ==> (#[trigger] new.reports@[i]).id == old.reports@[i].id
    &&& forall|i: int| 0 <= i < old.messages@.len() ==> #[trigger] new.messages@[i] == old.messages@[i]
}

/// No report leaves Approved or Rejected.
pub open spec fn keeps_terminal(old: &Store, new: &Store) -> bool {
    forall|i: int|
        0 <= i < old.reports@.len() && (#[trigger] old.reports@[i]).status.is_terminal()
            ==> new.reports@[i].status == old.reports@[i].status
}

/// The tokens that `id` could stake: its balance, or the bonus of a new user.
pub open spec fn balance_of(store: &Store, id: Seq<u8>) -> int {
    if has_user(store.users@, id) {
        user_of(store.users@, id).token_balance as int
    } else {
        NEW_USER_BONUS as int
    }
}

pub open spec fn pending_by(u: Seq<u8>) -> spec_fn(Report) -> bool {
    |r: Report| r.submitter_id@ == u && r.status == ReportStatus::Pending
}

/// How many Pending reports `u` has, by a full scan.
pub open spec fn pending_of(rs: Seq<Report>, u: Seq<u8>) -> nat {
    scan_ids(rs, pending_by(u)).len()
}

pub proof fn lemma_scan_bounded(rs: Seq<Report>, p: spec_fn(Report) -> bool)
    ensures
        scan_ids(rs, p).len() <= rs.len(),
    decreases rs.len(),
{
    if rs.len() > 0 {
        lemma_scan_bounded(rs.drop_last(), p);
    }
}

/// Counts the Pending reports of `u` by a full scan of the reports.
pub fn count_pending(store: &Store, u: &Identity) -> (n: usize)
    ensures
        n == pending_of(store.reports@, u@),
{
    let ghost rs = store.reports@;
    let mut n: usize = 0;
    let mut i: usize = 0;
    while i < store.reports.len()
        invariant
            rs == store.reports@,
            i <= rs.len(),
            n == pending_of(rs.subrange(0, i as int), u@),
        decreases rs.len() - i,
    {
        let ghost pre = rs.subrange(0, i as int);
        let ghost next = rs.subrange(0, (i + 1) as int);
        assert(next.drop_last() =~= pre);
        proof {
            lemma_scan_bounded(pre, pending_by(u@));
        }
        if store.reports[i].status == ReportStatus::Pending && store.reports[i].submitter_id.same(u) {
            n = n + 1;
        }
        i = i + 1;
    }
    assert(rs.subrange(0, rs.len() as int) =~= rs);
    n
}

/// Staking `stake` more keeps the counters of user `id` in range.
pub open spec fn stake_room(store: &Store, id: Seq<u8>, stake: u64) -> bool {
    has_user(store.users@, id) ==> {
        let u = user_of(store.users@, id);
        &&& u.stakes_active + stake <= u64::MAX
        &&& u.reports_submitted@.len() < usize::MAX
    }
}

/// Why a submission is refused, if it is.
pub open spec fn submit_error(
    store: &Store,
    caller: &Identity,
    title: Seq<char>,
    description: Seq<char>,
    category: Seq<char>,
    stake_amount: u64,
    evidence_count: u32,
) -> Option<EngineError> {
    if caller@ == anonymous_bytes() {
        Some(EngineError::Authorization(Denial::Anonymous))
    } else if report_input_error(title, description, category, stake_amount).is_some() {
        Some(
            EngineError::Validation(
                report_input_error(title, description, category, stake_amount).unwrap(),
            ),
        )
    } else if evidence_count > MAX_EVIDENCE_COUNT {
        Some(EngineError::Validation(Invalid::TooManyEvidence))
    } else if balance_of(store, caller@) < stake_amount {
        Some(EngineError::InsufficientBalance)
    } else if pending_of(store.reports@, caller@) >= MAX_PENDING_REPORTS {
        Some(EngineError::Validation(Invalid::TooManyPending))
    } else if store.reports@.len() + 2 >= u64::MAX || store.messages@.len() + 2 >= u64::MAX
        || !stake_room(store, caller@, stake_amount) {
        Some(EngineError::Overflow)
    } else {
        None
    }
}

/// Files a new Pending report for `caller`, escrowing `stake_amount` of its tokens.
/// A caller seen for the first time gets `NEW_USER_BONUS` tokens first. Returns
/// the new report's id.
pub fn submit_report(
    store: &mut Store,
    caller: &Identity,
    now: u64,
    title: String,
    description: String,
    category: String,
    location: Option<Location>,
    incident_date: Option<String>,
    stake_amount: u64,
    evidence_count: u32,
) -> (r: Result<u64, EngineError>)
    requires
        old(store).wf(),
    ensures
        final(store).wf(),
        ids_advance(old(store), final(store)),
        keeps_terminal(old(store), final(store)),
        match submit_error(
            old(store),
            caller,
            title@,
            description@,
            category@,
            stake_amount,
            evidence_count,
        ) {
            Some(e) => r == Err::<u64, EngineError>(e) && *final(store) == *old(store),
            None => r == Ok::<u64, EngineError>(old(store).next_report_id() as u64),
        },
        r.is_ok() ==> {
            let id = r.unwrap();
            let rep = final(store).reports@.last();
            let u0 = user_of(old(store).users@, caller@);
            let u = user_of(final(store).users@, caller@);
            let fresh = !has_user(old(store).users@, caller@);
            &&& final(store).reports@.len() == old(store).reports@.len() + 1
            &&& final(store).reports@.drop_last() == old(store).reports@
            &&& rep.id == id
            &&& rep.title@ == trim_of(title@)
            &&& rep.description@ == trim_of(description@)
            &&& rep.category@ == lower_of(category@)
            &&& rep.date_submitted == now
            &&& rep.incident_date == incident_date
            &&& rep.location == location
            &&& rep.submitter_id@ == caller@
            &&& rep.evidence_count == evidence_count
            &&& rep.evidence_files@.len() == 0
            &&& rep.stake_amount == stake_amount
            &&& rep.reward_amount == 0
            &&& rep.status == ReportStatus::Pending
            &&& rep.reviewer.is_none() && rep.review_date.is_none() && rep.review_notes.is_none()
            &&& rep.ipfs_cid.is_none() && rep.ipfs_pinned_at.is_none()
            &&& has_user(final(store).users@, caller@)
            &&& u.token_balance == (if fresh {
                NEW_USER_BONUS as int
            } else {
                u0.token_balance as int
            }) - stake_amount
            &&& u.stakes_active == (if fresh {
                0
            } else {
                u0.stakes_active as int
            }) + stake_amount
            &&& u.stakes_lost == (if fresh {
                0
            } else {
                u0.stakes_lost
            })
            &&& u.rewards_earned == (if fresh {
                0
            } else {
                u0.rewards_earned
            })
            &&& u.reports_submitted@ == (if fresh {
                Seq::<u64>::empty()
            } else {
                u0.reports_submitted@
            }).push(id)
            &&& forall|other: Seq<u8>|
                other != caller@ ==> #[trigger] has_user(final(store).users@, other) == has_user(
                    old(store).users@,
                    other,
                ) && (has_user(old(store).users@, other) ==> user_of(final(store).users@, other)
                    == user_of(old(store).users@, other))
            &&& ledger_value(final(store).users@) == ledger_value(old(store).users@) + if fresh {
                NEW_USER_BONUS as int
            } else {
                0
            }
            &&& appended_system_message(
                old(store),
                final(store),
                id,
                submission_notice(stake_amount),
                now,
            )
            &&& final(store).authorities@ == old(store).authorities@
            &&& final(store).evidence_files@ == old(store).evidence_files@
            &&& final(store).stats == old(store).stats
            &&& final(store).ipfs_config == old(store).ipfs_config
        },
{
    if caller.is_anonymous() {
        return Err(EngineError::Authorization(Denial::Anonymous));
    }
    match validate_report_input(title.as_str(), description.as_str(), category.as_str(), stake_amount) {
        Err(e) => {
            return Err(e);
        },
        Ok(()) => {},
    }
    if evidence_count > MAX_EVIDENCE_COUNT {
        return Err(EngineError::Validation(Invalid::TooManyEvidence));
    }
    let ui = find_user(&store.users, caller);
    let balance = match ui {
        Some(i) => store.users[i].token_balance,
        None => NEW_USER_BONUS,
    };
    proof {
        if let Some(i) = ui {
            lemma_user_index(store.users@, caller@, i as int);
        }
    }
    if balance < stake_amount {
        return Err(EngineError::InsufficientBalance);
    }
    if count_pending(store, caller) >= MAX_PENDING_REPORTS {
        return Err(EngineError::Validation(Invalid::TooManyPending));
    }
    if store.reports.len() as u64 >= u64::MAX - 2 || store.messages.len() as u64 >= u64::MAX - 2 {
        return Err(EngineError::Overflow);
    }
    if let Some(i) = ui {
        if store.users[i].stakes_active > u64::MAX - stake_amount
            || store.users[i].reports_submitted.len() == usize::MAX {
            return Err(EngineError::Overflow);
        }
    }
    let ghost s0 = *store;
    let report = Report {
        id: 0,
        title: trimmed(title.as_str()),
        description: trimmed(description.as_str()),
        category: lowercase(category.as_str()),
        date_submitted: now,
        incident_date,
        location,
        submitter_id: caller.duplicate(),
        evidence_count,
        evidence_files: Vec::new(),
        stake_amount,
        reward_amount: 0,
        status: ReportStatus::Pending,
        reviewer: None,
        review_date: None,
        review_notes: None,
        ipfs_cid: None,
        ipfs_pinned_at: None,
    };
    let report_id = crate::store::create_report(store, &report);
    let ghost s1 = *store;
    let ghost us = store.users@;
    match ui {
        Some(i) => {
            store.users[i].token_balance = store.users[i].token_balance - stake_amount;
            store.users[i].stakes_active = store.users[i].stakes_active + stake_amount;
            store.users[i].reports_submitted.push(report_id);
            proof {
                let u2 = store.users@[i as int];
                assert(store.users@ == us.update(i as int, u2));
                assert(users_after_put(us, u2) == store.users@);
                lemma_put_keeps_distinct(us, u2);
            }
        },
        None => {
            let mut fresh = User::empty(caller.duplicate(), NEW_USER_BONUS - stake_amount);
            fresh.stakes_active = stake_amount;
            fresh.reports_submitted.push(report_id);
            let ghost f = fresh;
            store.users.push(fresh);
            proof {
                assert(users_after_put(us, f) == store.users@);
                lemma_put_keeps_distinct(us, f);
            }
        },
    }
    let ghost s2 = *store;
    post_system_message(store, report_id, submission_text(stake_amount), now);
    proof {
        assert(store.reports@ == s1.reports@);
        assert forall|i: int| 0 <= i < s0.reports@.len() implies (#[trigger] store.reports@[i]).id
            == s0.reports@[i].id by {
            assert(store.reports@[i] == s1.reports@.drop_last()[i]);
        }
        assert forall|k: int| 0 <= k < s0.messages@.len() implies #[trigger] store.messages@[k]
            == s0.messages@[k] by {
            assert(store.messages@.drop_last()[k] == store.messages@[k]);
        }
    }
    Ok(report_id)
}

/// Settling report `report_id` keeps every counter it touches in range.
pub open spec fn approval_fits(store: &Store, report_id: u64) -> bool {
    let rep = store.reports@[report_id - 1];
    let u = user_of(store.users@, rep.submitter_id@);
    let stake = rep.stake_amount;
    let reward = reward_of(stake, rep.evidence_count);
    &&& stake <= u64::MAX / 16
    &&& u.token_balance + stake + reward <= u64::MAX
    &&& u.stakes_active >= stake
    &&& u.rewards_earned + reward <= u64::MAX
    &&& store.stats.total_rewards_distributed + reward <= u64::MAX
    &&& store.messages@.len() + 2 < u64::MAX
}

/// Why an adjudication of report `report_id` is refused before any settlement check.
pub open spec fn review_error(store: &Store, caller: &Identity, report_id: u64) -> Option<EngineError> {
    if authority_denial(store, caller).is_some() {
        Some(EngineError::Authorization(authority_denial(store, caller).unwrap()))
    } else if !(1 <= report_id <= store.reports@.len()) {
        Some(EngineError::NotFound(Missing::Report))
    } else if store.reports@[report_id - 1].status != ReportStatus::Pending {
        Some(EngineError::StateConflict(store.reports@[report_id - 1].status))
    } else {
        None
    }
}

/// Why `verify_report` refuses, if it does.
pub open spec fn verify_error(store: &Store, caller: &Identity, report_id: u64) -> Option<EngineError> {
    if review_error(store, caller, report_id).is_some() {
        review_error(store, caller, report_id)
    } else if !has_user(store.users@, store.reports@[report_id - 1].submitter_id@) {
        Some(EngineError::NotFound(Missing::User))
    } else if !approval_fits(store, report_id) {
        Some(EngineError::Overflow)
    } else {
        None
    }
}

/// `new` has the review record of `old` for `caller`, extended by `report_id`,
/// with approvals recounted over the reports of `new`.
pub open spec fn review_recorded(old: &Store, new: &Store, caller: &Identity, report_id: u64) -> bool {
    let a = authority_of(old.authorities@, caller@);
    let a2 = authority_of(new.authorities@, caller@);
    &&& new.authorities@ == old.authorities@.update(
        authority_index(old.authorities@, caller@),
        a2,
    )
    &&& a2.id == a.id
    &&& a2.reports_reviewed@ == a.reports_reviewed@.push(report_id)
    &&& a2.approved_count == approved_among(new.reports@, a2.reports_reviewed@)
}

/// Report `r` once adjudicated by `caller` at `now`.
pub open spec fn adjudicated(
    r: Report,
    status: ReportStatus,
    caller: &Identity,
    now: u64,
    notes: Option<String>,
) -> Report {
    Report { status, reviewer: Some(*caller), review_date: Some(now), review_notes: notes, ..r }
}

/// Stores the adjudicated form of report `i + 1`.
fn adjudicate(
    store: &mut Store,
    i: usize,
    status: ReportStatus,
    caller: &Identity,
    now: u64,
    notes: Option<String>,
    reward: u64,
)
    requires
        old(store).wf(),
        i < old(store).reports@.len(),
        reward > 0 ==> status == ReportStatus::Approved,
    ensures
        final(store).wf(),
        final(store).same_but_reports(old(store)),
        final(store).reports@.len() == old(store).reports@.len(),
        forall|j: int| 0 <= j < old(store).reports@.len() && j != i ==> #[trigger] final(store).reports@[j] == old(store).reports@[j],
        final(store).reports@[i as int].same(
            Report {
                reward_amount: reward,
                ..adjudicated(old(store).reports@[i as int], status, caller, now, notes)
            },
        ),
{
    let mut updated = store.reports[i].duplicate();
    updated.status = status;
    updated.reviewer = Some(caller.duplicate());
    updated.review_date = Some(now);
    updated.review_notes = notes;
    updated.reward_amount = reward;
    let ghost u = updated;
    let _ = update_report(store, updated);
    proof {
        assert(store.reports@[i as int] == u);
    }
}

/// What `verify_report` does: on a refusal nothing changes; on success the
/// report is Approved and settled, the submitter paid, a notice posted and the
/// review recorded.
pub open spec fn verify_outcome(
    old: &Store,
    new: &Store,
    caller: &Identity,
    now: u64,
    report_id: u64,
    notes: Option<String>,
    r: Result<(), EngineError>,
) -> bool {
    &&& ids_advance(old, new)
    &&& keeps_terminal(old, new)
    &&& match verify_error(old, caller, report_id) {
            Some(e) => r == Err::<(), EngineError>(e) && *new == *old,
            None => r == Ok::<(), EngineError>(()),
        }
    &&& r.is_ok() ==> {
            let i = report_id - 1;
            let rep = old.reports@[i];
            let stake = rep.stake_amount;
            let reward = reward_of(stake, rep.evidence_count);
            let s = rep.submitter_id@;
            let u = user_of(old.users@, s);
            &&& new.reports@.len() == old.reports@.len()
            &&& forall|j: int|
                0 <= j < old.reports@.len() && j != i ==> #[trigger] new.reports@[j]
                    == old.reports@[j]
            &&& new.reports@[i].same(
                Report {
                    reward_amount: reward as u64,
                    ..adjudicated(rep, ReportStatus::Approved, caller, now, notes)
                },
            )
            &&& has_user(new.users@, s)
            &&& user_of(new.users@, s) == (User {
                token_balance: (u.token_balance + stake + reward) as u64,
                stakes_active: (u.stakes_active - stake) as u64,
                rewards_earned: (u.rewards_earned + reward) as u64,
                ..u
            })
            &&& forall|other: Seq<u8>|
                other != s ==> #[trigger] has_user(new.users@, other) == has_user(
                    old.users@,
                    other,
                ) && (has_user(old.users@, other) ==> user_of(new.users@, other)
                    == user_of(old.users@, other))
            &&& ledger_value(new.users@) == ledger_value(old.users@) + reward
            &&& new.stats.total_rewards_distributed
                == old.stats.total_rewards_distributed + reward
            &&& appended_system_message(
                old,
                new,
                report_id,
                approval_notice(stake, reward as u64, notes),
                now,
            )
            &&& review_recorded(old, new, caller, report_id)
            &&& new.evidence_files@ == old.evidence_files@
            &&& new.ipfs_config == old.ipfs_config
        }
}

/// Approves Pending report `report_id`: the submitter gets the stake back plus
/// the reward, and the reviewing authority's record is updated.
pub fn verify_report(
    store: &mut Store,
    caller: &Identity,
    now: u64,
    report_id: u64,
    notes: Option<String>,
) -> (r: Result<(), EngineError>)
    requires
        old(store).wf(),
    ensures
        final(store).wf(),
        verify_outcome(old(store), final(store), caller, now, report_id, notes, r),
{
    match ensure_authority(store, caller) {
        Err(e) => {
            return Err(e);
        },
        Ok(()) => {},
    }
    if report_id == 0 || report_id > store.reports.len() as u64 {
        return Err(EngineError::NotFound(Missing::Report));
    }
    let i = (report_id - 1) as usize;
    let status = store.reports[i].status;
    if status != ReportStatus::Pending {
        return Err(EngineError::StateConflict(status));
    }
    let ui = match find_user(&store.users, &store.reports[i].submitter_id) {
        Some(k) => k,
        None => {
            return Err(EngineError::NotFound(Missing::User));
        },
    };
    proof {
        lemma_user_index(store.users@, store.reports@[i as int].submitter_id@, ui as int);
    }
    let stake = store.reports[i].stake_amount;
    if stake > u64::MAX / 16 {
        return Err(EngineError::Overflow);
    }
    let reward = calculate_reward(stake, store.reports[i].evidence_count);
    if store.users[ui].token_balance > u64::MAX - stake - reward || store.users[ui].stakes_active
        < stake || store.users[ui].rewards_earned > u64::MAX - reward
        || store.stats.total_rewards_distributed > u64::MAX - reward || store.messages.len() as u64
        >= u64::MAX - 2 {
        return Err(EngineError::Overflow);
    }
    let ghost s0 = *store;
    let text = approval_text(stake, reward, &notes);
    adjudicate(store, i, ReportStatus::Approved, caller, now, notes, reward);
    let ghost us = store.users@;
    store.users[ui].token_balance = store.users[ui].token_balance + stake + reward;
    store.users[ui].stakes_active = store.users[ui].stakes_active - stake;
    store.users[ui].rewards_earned = store.users[ui].rewards_earned + reward;
    proof {
        let u2 = store.users@[ui as int];
        assert(store.users@ == us.update(ui as int, u2));
        assert(users_after_put(us, u2) == store.users@);
        lemma_put_keeps_distinct(us, u2);
    }
    store.stats.total_rewards_distributed = store.stats.total_rewards_distributed + reward;
    let ghost s2 = *store;
    post_system_message(store, report_id, text, now);
    let ghost s3 = *store;
    record_review(store, caller, report_id);
    proof {
        assert forall|k: int| 0 <= k < s0.messages@.len() implies #[trigger] store.messages@[k]
            == s0.messages@[k] by {
            assert(store.messages@.drop_last()[k] == store.messages@[k]);
        }
        assert(has_authority(s0.authorities@, caller@));
        assert forall|j: int|
            0 <= j < s0.reports@.len() && (#[trigger] s0.reports@[j]).status.is_terminal() implies store.reports@[j].status
            == s0.reports@[j].status by {
            if j == i {
                assert(false);
            }
        }
    }
    Ok(())
}

} // verus!

verus! {

/// Whether a rejection reason is missing.
pub open spec fn reason_missing(notes: Option<String>) -> bool {
    notes.is_none() || is_blank(notes.unwrap()@)
}

/// Why `reject_report` refuses, if it does.
pub open spec fn reject_error(
    store: &Store,
    caller: &Identity,
    report_id: u64,
    notes: Option<String>,
) -> Option<EngineError> {
    if authority_denial(store, caller).is_some() {
        Some(EngineError::Authorization(authority_denial(store, caller).unwrap()))
    } else if reason_missing(notes) {
        Some(EngineError::Validation(Invalid::MissingReason))
    } else if review_error(store, caller, report_id).is_some() {
        review_error(store, caller, report_id)
    } else if !has_user(store.users@, store.reports@[report_id - 1].submitter_id@) {
        Some(EngineError::NotFound(Missing::User))
    } else if !({
        let rep = store.reports@[report_id - 1];
        let u = user_of(store.users@, rep.submitter_id@);
        &&& u.stakes_active >= rep.stake_amount
        &&& u.stakes_lost + rep.stake_amount <= u64::MAX
        &&& store.messages@.len() + 2 < u64::MAX
    }) {
        Some(EngineError::Overflow)
    } else {
        None
    }
}

/// Rejects Pending report `report_id` for the reason in `notes`: the stake is forfeited.
pub fn reject_report(
    store: &mut Store,
    caller: &Identity,
    now: u64,
    report_id: u64,
    notes: Option<String>,
) -> (r: Result<(), EngineError>)
    requires
        old(store).wf(),
    ensures
        final(store).wf(),
        ids_advance(old(store), final(store)),
        keeps_terminal(old(store), final(store)),
        match reject_error(old(store), caller, report_id, notes) {
            Some(e) => r == Err::<(), EngineError>(e) && *final(store) == *old(store),
            None => r == Ok::<(), EngineError>(()),
        },
        r.is_ok() ==> {
            let i = report_id - 1;
            let rep = old(store).reports@[i];
            let stake = rep.stake_amount;
            let s = rep.submitter_id@;
            let u = user_of(old(store).users@, s);
            &&& final(store).reports@.len() == old(store).reports@.len()
            &&& forall|j: int|
                0 <= j < old(store).reports@.len() && j != i ==> #[trigger] final(store).reports@[j]
                    == old(store).reports@[j]
            &&& final(store).reports@[i].same(
                Report {
                    reward_amount: 0,
                    ..adjudicated(rep, ReportStatus::Rejected, caller, now, notes)
                },
            )
            &&& has_user(final(store).users@, s)
            &&& user_of(final(store).users@, s) == (User {
                stakes_active: (u.stakes_active - stake) as u64,
                stakes_lost: (u.stakes_lost + stake) as u64,
                ..u
            })
            &&& forall|other: Seq<u8>|
                other != s ==> #[trigger] has_user(final(store).users@, other) == has_user(
                    old(store).users@,
                    other,
                ) && (has_user(old(store).users@, other) ==> user_of(final(store).users@, other)
                    == user_of(old(store).users@, other))
            &&& ledger_value(final(store).users@) == ledger_value(old(store).users@)
            &&& final(store).stats == old(store).stats
            &&& appended_system_message(
                old(store),
                final(store),
                report_id,
                rejection_notice(stake, notes.unwrap()@),
                now,
            )
            &&& review_recorded(old(store), final(store), caller, report_id)
            &&& final(store).evidence_files@ == old(store).evidence_files@
            &&& final(store).ipfs_config == old(store).ipfs_config
        },
{
    match ensure_authority(store, caller) {
        Err(e) => {
            return Err(e);
        },
        Ok(()) => {},
    }
    let reason = match &notes {
        Some(n) => {
            if blank(n.as_str()) {
                return Err(EngineError::Validation(Invalid::MissingReason));
            }
            n.clone()
        },
        None => {
            return Err(EngineError::Validation(Invalid::MissingReason));
        },
    };
    if report_id == 0 || report_id > store.reports.len() as u64 {
        return Err(EngineError::NotFound(Missing::Report));
    }
    let i = (report_id - 1) as usize;
    let status = store.reports[i].status;
    if status != ReportStatus::Pending {
        return Err(EngineError::StateConflict(status));
    }
    let ui = match find_user(&store.users, &store.reports[i].submitter_id) {
        Some(k) => k,
        None => {
            return Err(EngineError::NotFound(Missing::User));
        },
    };
    proof {
        lemma_user_index(store.users@, store.reports@[i as int].submitter_id@, ui as int);
    }
    let stake = store.reports[i].stake_amount;
    if store.users[ui].stakes_active < stake || store.users[ui].stakes_lost > u64::MAX - stake
        || store.messages.len() as u64 >= u64::MAX - 2 {
        return Err(EngineError::Overflow);
    }
    let ghost s0 = *store;
    let text = rejection_text(stake, &reason);
    adjudicate(store, i, ReportStatus::Rejected, caller, now, notes, 0);
    let ghost us = store.users@;
    store.users[ui].stakes_active = store.users[ui].stakes_active - stake;
    store.users[ui].stakes_lost = store.users[ui].stakes_lost + stake;
    proof {
        let u2 = store.users@[ui as int];
        assert(store.users@ == us.update(ui as int, u2));
        assert(users_after_put(us, u2) == store.users@);
        lemma_put_keeps_distinct(us, u2);
    }
    post_system_message(store, report_id, text, now);
    record_review(store, caller, report_id);
    proof {
        assert forall|k: int| 0 <= k < s0.messages@.len() implies #[trigger] store.messages@[k]
            == s0.messages@[k] by {
            assert(store.messages@.drop_last()[k] == store.messages@[k]);
        }
        assert(has_authority(s0.authorities@, caller@));
        assert forall|j: int|
            0 <= j < s0.reports@.len() && (#[trigger] s0.reports@[j]).status.is_terminal() implies store.reports@[j].status
            == s0.reports@[j].status by {
            if j == i {
                assert(false);
            }
        }
    }
    Ok(())
}

/// Why `put_under_review` refuses, if it does.
pub open spec fn hold_error(store: &Store, caller: &Identity, report_id: u64) -> Option<EngineError> {
    if review_error(store, caller, report_id).is_some() {
        review_error(store, caller, report_id)
    } else if store.messages@.len() + 2 >= u64::MAX {
        Some(EngineError::Overflow)
    } else {
        None
    }
}

/// Moves Pending report `report_id` to UnderReview; no tokens move.
pub fn put_under_review(
    store: &mut Store,
    caller: &Identity,
    now: u64,
    report_id: u64,
    notes: Option<String>,
) -> (r: Result<(), EngineError>)
    requires
        old(store).wf(),
    ensures
        final(store).wf(),
        ids_advance(old(store), final(store)),
        keeps_terminal(old(store), final(store)),
        match hold_error(old(store), caller, report_id) {
            Some(e) => r == Err::<(), EngineError>(e) && *final(store) == *old(store),
            None => r == Ok::<(), EngineError>(()),
        },
        r.is_ok() ==> {
            let i = report_id - 1;
            let rep = old(store).reports@[i];
            &&& final(store).reports@.len() == old(store).reports@.len()
            &&& forall|j: int|
                0 <= j < old(store).reports@.len() && j != i ==> #[trigger] final(store).reports@[j]
                    == old(store).reports@[j]
            &&& final(store).reports@[i].same(
                Report {
                    reward_amount: rep.reward_amount,
                    ..adjudicated(rep, ReportStatus::UnderReview, caller, now, notes)
                },
            )
            &&& final(store).users@ == old(store).users@
            &&& final(store).authorities@ == old(store).authorities@
            &&& final(store).stats == old(store).stats
            &&& appended_system_message(
                old(store),
                final(store),
                report_id,
                review_notice(notes),
                now,
            )
            &&& final(store).evidence_files@ == old(store).evidence_files@
            &&& final(store).ipfs_config == old(store).ipfs_config
        },
{
    match ensure_authority(store, caller) {
        Err(e) => {
            return Err(e);
        },
        Ok(()) => {},
    }
    if report_id == 0 || report_id > store.reports.len() as u64 {
        return Err(EngineError::NotFound(Missing::Report));
    }
    let i = (report_id - 1) as usize;
    let status = store.reports[i].status;
    if status != ReportStatus::Pending {
        return Err(EngineError::StateConflict(status));
    }
    if store.messages.len() as u64 >= u64::MAX - 2 {
        return Err(EngineError::Overflow);
    }
    let ghost s0 = *store;
    let text = review_text(&notes);
    let reward = store.reports[i].reward_amount;
    adjudicate(store, i, ReportStatus::UnderReview, caller, now, notes, reward);
    post_system_message(store, report_id, text, now);
    proof {
        assert forall|k: int| 0 <= k < s0.messages@.len() implies #[trigger] store.messages@[k]
            == s0.messages@[k] by {
            assert(store.messages@.drop_last()[k] == store.messages@[k]);
        }
        assert forall|j: int|
            0 <= j < s0.reports@.len() && (#[trigger] s0.reports@[j]).status.is_terminal() implies store.reports@[j].status
            == s0.reports@[j].status by {
            if j == i {
                assert(false);
            }
        }
    }
    Ok(())
}

/// How many ids one bulk call may carry.
pub const MAX_BULK_IDS: usize = 10;

/// The report with id `id` exists in `s` and has status `st`.
pub open spec fn status_is(s: &Store, id: u64, st: ReportStatus) -> bool {
    1 <= id <= s.reports@.len() && s.reports@[id - 1].status == st
}

/// The ids of `ids` whose outcome in `outs` is a success, in list order.
pub open spec fn succeeded(ids: Seq<u64>, outs: Seq<Result<(), EngineError>>) -> Seq<u64>
    decreases ids.len(),
{
    if ids.len() == 0 || outs.len() == 0 {
        Seq::empty()
    } else {
        let before = succeeded(ids.drop_last(), outs.drop_last());
        if outs.last() is Ok {
            before.push(ids.last())
        } else {
            before
        }
    }
}

/// `trace` is the run of `verify_report` over `ids` in turn: step `k` takes
/// `trace[k]` to `trace[k + 1]` with outcome `outs[k]`.
pub open spec fn verify_run(
    trace: Seq<Store>,
    outs: Seq<Result<(), EngineError>>,
    caller: &Identity,
    now: u64,
    ids: Seq<u64>,
    notes: Option<String>,
) -> bool {
    &&& trace.len() == ids.len() + 1
    &&& outs.len() == ids.len()
    &&& forall|k: int|
        0 <= k < ids.len() ==> #[trigger] verify_outcome(
            &trace[k],
            &trace[k + 1],
            caller,
            now,
            ids[k],
            notes,
            outs[k],
        )
}

/// The rewards that approving the listed reports of `rs` pays out.
pub open spec fn rewards_of(rs: Seq<Report>, ids: Seq<u64>) -> int
    decreases ids.len(),
{
    if ids.len() == 0 {
        0
    } else {
        rewards_of(rs, ids.drop_last()) + if 1 <= ids.last() <= rs.len() {
            reward_of(rs[ids.last() - 1].stake_amount, rs[ids.last() - 1].evidence_count)
        } else {
            0
        }
    }
}

/// The submitter of report `id` in `rs`.
pub open spec fn submitter_of(rs: Seq<Report>, id: u64) -> Seq<u8> {
    rs[id - 1].submitter_id@
}

/// Verifies each listed report on its own, in list order, exactly as
/// `verify_report` would at its turn; those that cannot be verified are
/// skipped, and the call itself fails only for the caller or the list length.
/// Returns the ids that were verified, in list order.
pub fn bulk_verify_reports(
    store: &mut Store,
    caller: &Identity,
    now: u64,
    report_ids: Vec<u64>,
    notes: Option<String>,
) -> (r: Result<Vec<u64>, EngineError>)
    requires
        old(store).wf(),
    ensures
        final(store).wf(),
        ids_advance(old(store), final(store)),
        keeps_terminal(old(store), final(store)),
        authority_denial(old(store), caller).is_some() ==> r == Err::<Vec<u64>, EngineError>(
            EngineError::Authorization(authority_denial(old(store), caller).unwrap()),
        ) && *final(store) == *old(store),
        authority_denial(old(store), caller).is_none() && report_ids@.len() > MAX_BULK_IDS ==> r
            == Err::<Vec<u64>, EngineError>(EngineError::Validation(Invalid::TooManyIds))
            && *final(store) == *old(store),
        authority_denial(old(store), caller).is_none() && report_ids@.len() <= MAX_BULK_IDS
            ==> r.is_ok(),
        r.is_ok() ==> exists|trace: Seq<Store>, outs: Seq<Result<(), EngineError>>|
            #[trigger] verify_run(trace, outs, caller, now, report_ids@, notes) && trace[0] == *old(
                store)
                && trace.last() == *final(store) && r.unwrap()@ == succeeded(report_ids@, outs),
        r.is_ok() ==> {
            let done = r.unwrap()@;
            let rs = old(store).reports@;
            &&& done.no_duplicates()
            &&& forall|id: u64|
                #[trigger] done.contains(id) ==> report_ids@.contains(id) && status_is(
                    old(store),
                    id,
                    ReportStatus::Pending,
                ) && status_is(final(store), id, ReportStatus::Approved)
            &&& forall|j: int|
                0 <= j < rs.len() && !done.contains((j + 1) as u64)
                    ==> #[trigger] final(store).reports@[j] == rs[j]
            &&& ledger_value(final(store).users@) == ledger_value(old(store).users@) + rewards_of(
                rs,
                done,
            )
            &&& forall|u: Seq<u8>|
                (forall|m: int| 0 <= m < done.len() ==> submitter_of(rs, #[trigger] done[m]) != u)
                    ==> #[trigger] has_user(final(store).users@, u) == has_user(old(store).users@, u)
                    && (has_user(old(store).users@, u) ==> user_of(final(store).users@, u)
                    == user_of(old(store).users@, u))
        },
{
    match ensure_authority(store, caller) {
        Err(e) => {
            return Err(e);
        },
        Ok(()) => {},
    }
    if report_ids.len() > MAX_BULK_IDS {
        return Err(EngineError::Validation(Invalid::TooManyIds));
    }
    let ghost s0 = *store;
    let ghost rs = s0.reports@;
    let ghost mut trace: Seq<Store> = seq![s0];
    let ghost mut outs: Seq<Result<(), EngineError>> = Seq::empty();
    let mut done: Vec<u64> = Vec::new();
    let mut k: usize = 0;
    while k < report_ids.len()
        invariant
            store.wf(),
            s0.wf(),
            rs == s0.reports@,
            k <= report_ids@.len(),
            trace.len() == k + 1,
            outs.len() == k,
            trace[0] == s0,
            trace[k as int] == *store,
            forall|m: int|
                0 <= m < k ==> #[trigger] verify_outcome(
                    &trace[m],
                    &trace[m + 1],
                    caller,
                    now,
                    report_ids@[m],
                    notes,
                    outs[m],
                ),
            done@ == succeeded(report_ids@.subrange(0, k as int), outs),
            done@.no_duplicates(),
            ids_advance(&s0, store),
            keeps_terminal(&s0, store),
            store.reports@.len() == rs.len(),
            forall|id: u64|
                #[trigger] done@.contains(id) ==> report_ids@.subrange(0, k as int).contains(id)
                    && status_is(&s0, id, ReportStatus::Pending) && status_is(
                    store,
                    id,
                    ReportStatus::Approved,
                ),
            forall|j: int|
                0 <= j < rs.len() && !done@.contains((j + 1) as u64)
                    ==> #[trigger] store.reports@[j] == rs[j],
            ledger_value(store.users@) == ledger_value(s0.users@) + rewards_of(rs, done@),
            forall|u: Seq<u8>|
                (forall|m: int| 0 <= m < done@.len() ==> submitter_of(rs, #[trigger] done@[m]) != u)
                    ==> #[trigger] has_user(store.users@, u) == has_user(s0.users@, u) && (
                    has_user(s0.users@, u) ==> user_of(store.users@, u) == user_of(s0.users@, u)),
        decreases report_ids@.len() - k,
    {
        let id = report_ids[k];
        let ghost s1 = *store;
        let ghost d0 = done@;
        let ghost o0 = outs;
        let ghost pre = report_ids@.subrange(0, k as int);
        let ghost next = report_ids@.subrange(0, (k + 1) as int);
        assert(next =~= pre.push(id));
        let outcome = verify_report(store, caller, now, id, copy_text(&notes));
        proof {
            let oc = if outcome.is_ok() {
                Ok::<(), EngineError>(())
            } else {
                outcome
            };
            assert(oc == outcome);
            trace = trace.push(*store);
            outs = outs.push(outcome);
            assert forall|m: int|
                0 <= m < k + 1 implies #[trigger] verify_outcome(
                &trace[m],
                &trace[m + 1],
                caller,
                now,
                report_ids@[m],
                notes,
                outs[m],
            ) by {
                if m < k {
                    assert(trace[m] == trace.drop_last()[m]);
                }
            }
            assert(next.drop_last() =~= pre);
            assert(outs.drop_last() =~= outs.subrange(0, k as int));
            assert forall|x: u64| #[trigger] next.contains(x) <==> (pre.contains(x) || x == id) by {
                if next.contains(x) {
                    let m = choose|m: int| 0 <= m < next.len() && next[m] == x;
                    if m < pre.len() {
                        assert(pre[m] == x);
                    }
                }
                if pre.contains(x) {
                    let m = choose|m: int| 0 <= m < pre.len() && pre[m] == x;
                    assert(next[m] == x);
                }
                if x == id {
                    assert(next[pre.len() as int] == x);
                }
            }
        }
        if outcome.is_ok() {
            proof {
                assert(status_is(&s1, id, ReportStatus::Pending));
                assert(!d0.contains(id));
                assert(s1.reports@[id - 1] == rs[id - 1]);
            }
            done.push(id);
            proof {
                assert(outs.drop_last() =~= o0);
                assert(next.drop_last() == pre);
                assert(done@ == succeeded(next, outs));
                assert forall|a: int, b: int| 0 <= a < done@.len() && 0 <= b < done@.len() && a != b
                    implies done@[a] != done@[b] by {
                    if a < d0.len() && b < d0.len() {
                        assert(d0[a] != d0[b]);
                    } else if a < d0.len() {
                        assert(d0.contains(d0[a]));
                    } else {
                        assert(d0.contains(d0[b]));
                    }
                }
                assert forall|x: u64| #[trigger] done@.contains(x) <==> (d0.contains(x) || x == id) by {
                    if done@.contains(x) {
                        let m = choose|m: int| 0 <= m < done@.len() && done@[m] == x;
                        if m < d0.len() {
                            assert(d0[m] == x);
                        }
                    }
                    if d0.contains(x) {
                        let m = choose|m: int| 0 <= m < d0.len() && d0[m] == x;
                        assert(done@[m] == x);
                    }
                    if x == id {
                        assert(done@[d0.len() as int] == x);
                    }
                }
                assert(done@.drop_last() =~= d0);
                assert forall|x: u64| #[trigger] done@.contains(x) implies next.contains(x)
                    && status_is(&s0, x, ReportStatus::Pending) && status_is(
                    store,
                    x,
                    ReportStatus::Approved,
                ) by {
                    if x != id {
                        assert(store.reports@[x - 1] == s1.reports@[x - 1]);
                    }
                }
                assert forall|j: int|
                    0 <= j < rs.len() && !done@.contains((j + 1) as u64) implies #[trigger] store.reports@[j]
                    == rs[j] by {
                    assert(store.reports@[j] == s1.reports@[j]);
                }
                assert forall|u: Seq<u8>|
                    (forall|m: int| 0 <= m < done@.len() ==> submitter_of(rs, #[trigger] done@[m]) != u)
                    implies #[trigger] has_user(store.users@, u) == has_user(s0.users@, u) && (
                    has_user(s0.users@, u) ==> user_of(store.users@, u) == user_of(s0.users@, u)) by {
                    assert(submitter_of(rs, done@[d0.len() as int]) != u);
                    assert forall|m: int| 0 <= m < d0.len() implies submitter_of(rs, #[trigger] d0[m]) != u by {
                        assert(done@[m] == d0[m]);
                    }
                }
            }
        } else {
            proof {
                assert(outs.drop_last() =~= o0);
                assert(next.drop_last() == pre);
                assert(done@ == succeeded(next, outs));
                assert forall|x: u64| #[trigger] done@.contains(x) implies next.contains(x)
                    && status_is(&s0, x, ReportStatus::Pending) && status_is(
                    store,
                    x,
                    ReportStatus::Approved,
                ) by {
                    assert(pre.contains(x));
                }
            }
        }
        proof {
            assert forall|i: int|
                0 <= i < s0.reports@.len() && (#[trigger] s0.reports@[i]).status.is_terminal() implies store.reports@[i].status
                == s0.reports@[i].status by {
                assert(s1.reports@[i].status == s0.reports@[i].status);
            }
            assert forall|i: int| 0 <= i < s0.reports@.len() implies (#[trigger] store.reports@[i]).id == s0.reports@[i].id by {
                assert(s1.reports@[i].id == s0.reports@[i].id);
            }
            assert forall|i: int| 0 <= i < s0.messages@.len() implies #[trigger] store.messages@[i] == s0.messages@[i] by {
                assert(s1.messages@[i] == s0.messages@[i]);
            }
        }
        k = k + 1;
    }
    proof {
        assert(report_ids@.subrange(0, report_ids@.len() as int) =~= report_ids@);
        assert(verify_run(trace, outs, caller, now, report_ids@, notes));
        assert forall|x: u64| #[trigger] done@.contains(x) implies report_ids@.contains(x) by {}
    }
    Ok(done)
}

} // verus!

verus! {

/// Copies of all reports, for authorities.
pub fn get_all_reports(store: &Store, caller: &Identity) -> (r: Result<Vec<Report>, EngineError>)
    requires
        store.wf(),
    ensures
        authority_denial(store, caller).is_some() ==> r == Err::<Vec<Report>, EngineError>(
            EngineError::Authorization(authority_denial(store, caller).unwrap()),
        ),
        authority_denial(store, caller).is_none() ==> r.is_ok() && r.unwrap()@.len()
            == store.reports@.len() && forall|i: int|
            0 <= i < store.reports@.len() ==> (#[trigger] r.unwrap()@[i]).same(store.reports@[i]),
{
    match ensure_authority(store, caller) {
        Err(e) => Err(e),
        Ok(()) => Ok(crate::store::get_all_reports(store)),
    }
}

/// The reports with status `status`, for authorities; see the store's lookup.
pub fn get_reports_by_status(store: &Store, caller: &Identity, status: ReportStatus) -> (r: Result<
    Vec<Report>,
    EngineError,
>)
    requires
        store.wf(),
    ensures
        authority_denial(store, caller).is_some() ==> r == Err::<Vec<Report>, EngineError>(
            EngineError::Authorization(authority_denial(store, caller).unwrap()),
        ),
        authority_denial(store, caller).is_none() ==> r.is_ok() && r.unwrap()@.len() == scan_ids(
            store.reports@,
            keyed(status_key(), status),
        ).len() && forall|k: int|
            0 <= k < r.unwrap()@.len() ==> (#[trigger] r.unwrap()@[k]).same(
                store.reports@[scan_ids(store.reports@, keyed(status_key(), status))[k] - 1],
            ),
{
    match ensure_authority(store, caller) {
        Err(e) => Err(e),
        Ok(()) => Ok(crate::store::get_reports_by_status(store, status)),
    }
}

/// The reports whose category is `category` up to case, for authorities.
pub fn get_reports_by_category(store: &Store, caller: &Identity, category: &str) -> (r: Result<
    Vec<Report>,
    EngineError,
>)
    requires
        store.wf(),
    ensures
        !has_authority(store.authorities@, caller@) ==> r == Err::<Vec<Report>, EngineError>(
            EngineError::Authorization(Denial::NotAuthority),
        ),
        has_authority(store.authorities@, caller@) ==> r.is_ok() && r.unwrap()@.len()
            == scan_ids(store.reports@, keyed(crate::store::category_key(), lower_of(category@))).len()
            && forall|k: int|
            0 <= k < r.unwrap()@.len() ==> (#[trigger] r.unwrap()@[k]).same(
                store.reports@[scan_ids(
                    store.reports@,
                    keyed(crate::store::category_key(), lower_of(category@)),
                )[k] - 1],
            ),
{
    if !crate::store::is_authority(store, caller) {
        return Err(EngineError::Authorization(Denial::NotAuthority));
    }
    Ok(crate::store::get_reports_by_category(store, category))
}

/// Whether `caller` may read report `rep`: its submitter, or an authority.
pub open spec fn may_view(store: &Store, caller: &Identity, rep: Report) -> bool {
    rep.submitter_id@ == caller@ || has_authority(store.authorities@, caller@)
}

/// Report `id` as a list of one, where it exists and the caller may see it; else empty.
pub fn get_report(store: &Store, caller: &Identity, id: u64) -> (r: Vec<Report>)
    requires
        store.wf(),
    ensures
        r@.len() == (if 1 <= id <= store.reports@.len() && may_view(
            store,
            caller,
            store.reports@[id - 1],
        ) {
            1int
        } else {
            0int
        }),
        r@.len() == 1 ==> r@[0].same(store.reports@[id - 1]),
{
    let mut out: Vec<Report> = Vec::new();
    match stored_report(store, id) {
        Some(rep) => {
            if rep.submitter_id.same(caller) || crate::store::is_authority(store, caller) {
                out.push(rep);
            }
        },
        None => {},
    }
    out
}

/// The caller's own reports, by a full scan; none for the anonymous caller.
pub fn get_user_reports(store: &Store, caller: &Identity) -> (r: Vec<Report>)
    requires
        store.wf(),
    ensures
        caller@ == anonymous_bytes() ==> r@.len() == 0,
        caller@ != anonymous_bytes() ==> r@.len() == scan_ids(
            store.reports@,
            keyed(submitter_key(), caller@),
        ).len() && forall|k: int|
            0 <= k < r@.len() ==> (#[trigger] r@[k]).same(
                store.reports@[scan_ids(store.reports@, keyed(submitter_key(), caller@))[k] - 1],
            ),
{
    if caller.is_anonymous() {
        return Vec::new();
    }
    crate::store::get_user_reports(store, caller)
}

/// The messages of report `report_id`, oldest first, for its submitter or an
/// authority; empty otherwise.
pub fn get_messages(store: &Store, caller: &Identity, report_id: u64) -> (r: Vec<Message>)
    requires
        store.wf(),
    ensures
        !(1 <= report_id <= store.reports@.len() && may_view(
            store,
            caller,
            store.reports@[report_id - 1],
        )) ==> r@.len() == 0,
        1 <= report_id <= store.reports@.len() && may_view(
            store,
            caller,
            store.reports@[report_id - 1],
        ) ==> r@.len() == crate::store::message_positions(store.messages@, report_id).len()
            && forall|k: int|
            0 <= k < r@.len() ==> (#[trigger] r@[k]).same(
                store.messages@[crate::store::message_positions(store.messages@, report_id)[k]],
            ),
{
    match stored_report(store, report_id) {
        Some(rep) => {
            if !rep.submitter_id.same(caller) && !crate::store::is_authority(store, caller) {
                return Vec::new();
            }
            crate::store::get_report_messages(store, report_id)
        },
        None => Vec::new(),
    }
}

/// The caller's balance; a caller seen for the first time is given
/// `NEW_USER_BONUS` tokens. The anonymous caller has none.
pub fn get_user_balance(store: &mut Store, caller: &Identity) -> (r: u64)
    requires
        old(store).wf(),
    ensures
        final(store).wf(),
        final(store).same_but_users(old(store)),
        caller@ == anonymous_bytes() ==> r == 0 && *final(store) == *old(store),
        caller@ != anonymous_bytes() && has_user(old(store).users@, caller@) ==> r == user_of(
            old(store).users@,
            caller@,
        ).token_balance && *final(store) == *old(store),
        caller@ != anonymous_bytes() && !has_user(old(store).users@, caller@) ==> r
            == NEW_USER_BONUS && has_user(final(store).users@, caller@) && user_of(
            final(store).users@,
            caller@,
        ).token_balance == NEW_USER_BONUS && user_of(final(store).users@, caller@).stakes_active
            == 0 && user_of(final(store).users@, caller@).stakes_lost == 0 && user_of(
            final(store).users@,
            caller@,
        ).rewards_earned == 0 && user_of(final(store).users@, caller@).reports_submitted@.len()
            == 0 && final(store).users@.drop_last() == old(store).users@
            && ledger_value(final(store).users@) == ledger_value(old(store).users@)
            + NEW_USER_BONUS,
{
    if caller.is_anonymous() {
        return 0;
    }
    match find_user(&store.users, caller) {
        Some(i) => {
            proof {
                lemma_user_index(store.users@, caller@, i as int);
            }
            store.users[i].token_balance
        },
        None => {
            let ghost us = store.users@;
            let fresh = User::empty(caller.duplicate(), NEW_USER_BONUS);
            let ghost f = fresh;
            create_or_update_user(store, fresh);
            proof {
                lemma_put_keeps_distinct(us, f);
                assert(store.users@.drop_last() =~= us);
            }
            NEW_USER_BONUS
        },
    }
}

/// The caller's user record; none for the anonymous caller.
pub fn get_user_info(store: &Store, caller: &Identity) -> (r: Option<User>)
    requires
        store.wf(),
    ensures
        caller@ == anonymous_bytes() ==> r.is_none(),
        caller@ != anonymous_bytes() ==> r.is_some() == has_user(store.users@, caller@) && (
        r.is_some() ==> r.unwrap().same(user_of(store.users@, caller@))),
{
    if caller.is_anonymous() {
        return None;
    }
    crate::store::get_user(store, caller)
}

/// Whether the caller is a registered authority; never the anonymous caller.
pub fn caller_is_authority(store: &Store, caller: &Identity) -> (r: bool)
    requires
        store.wf(),
    ensures
        r == (caller@ != anonymous_bytes() && has_authority(store.authorities@, caller@)),
{
    if caller.is_anonymous() {
        return false;
    }
    crate::store::is_authority(store, caller)
}

/// Report counts and rewards, for authorities.
pub fn get_authority_statistics(store: &Store, caller: &Identity) -> (r: Result<
    crate::types::AuthorityStats,
    EngineError,
>)
    requires
        store.wf(),
    ensures
        authority_denial(store, caller).is_some() ==> r == Err::<
            crate::types::AuthorityStats,
            EngineError,
        >(EngineError::Authorization(authority_denial(store, caller).unwrap())),
        authority_denial(store, caller).is_none() ==> r.is_ok() && {
            let st = r.unwrap();
            &&& st.reports_pending == crate::store::count_with_status(
                store.reports@,
                ReportStatus::Pending,
            )
            &&& st.reports_verified == crate::store::count_with_status(
                store.reports@,
                ReportStatus::Approved,
            )
            &&& st.reports_rejected == crate::store::count_with_status(
                store.reports@,
                ReportStatus::Rejected,
            )
            &&& st.total_rewards_distributed == if crate::store::approved_rewards(store.reports@)
                <= u64::MAX {
                crate::store::approved_rewards(store.reports@)
            } else {
                u64::MAX as int
            }
        },
{
    match ensure_authority(store, caller) {
        Err(e) => Err(e),
        Ok(()) => Ok(crate::store::get_authority_stats(store)),
    }
}

/// Registers `id` as an authority; only authorities may, and only for a newcomer.
pub fn add_new_authority(store: &mut Store, caller: &Identity, id: Identity) -> (r: Result<
    (),
    EngineError,
>)
    requires
        old(store).wf(),
    ensures
        final(store).wf(),
        final(store).same_but_authorities(old(store)),
        authority_denial(old(store), caller).is_some() ==> r == Err::<(), EngineError>(
            EngineError::Authorization(authority_denial(old(store), caller).unwrap()),
        ) && *final(store) == *old(store),
        authority_denial(old(store), caller).is_none() && has_authority(old(store).authorities@, id@)
            ==> r == Err::<(), EngineError>(EngineError::Validation(Invalid::AlreadyAuthority))
            && *final(store) == *old(store),
        authority_denial(old(store), caller).is_none() && !has_authority(
            old(store).authorities@,
            id@,
        ) ==> r.is_ok() && final(store).authorities@.drop_last() == old(store).authorities@
            && final(store).authorities@.last().id@ == id@
            && final(store).authorities@.last().reports_reviewed@.len() == 0
            && final(store).authorities@.last().approved_count == 0,
{
    match ensure_authority(store, caller) {
        Err(e) => {
            return Err(e);
        },
        Ok(()) => {},
    }
    if crate::store::is_authority(store, &id) {
        return Err(EngineError::Validation(Invalid::AlreadyAuthority));
    }
    let ghost aus = store.authorities@;
    crate::store::add_authority(store, Authority::fresh(id));
    assert(store.authorities@.drop_last() =~= aus);
    Ok(())
}

/// Sets the archival credentials, trimmed; none of them may be blank.
pub fn configure_ipfs_credentials(
    store: &mut Store,
    caller: &Identity,
    api_key: String,
    api_secret: String,
    jwt: String,
) -> (r: Result<(), EngineError>)
    requires
        old(store).wf(),
    ensures
        final(store).wf(),
        final(store).same_reports(old(store)),
        final(store).users@ == old(store).users@,
        final(store).authorities@ == old(store).authorities@,
        final(store).messages@ == old(store).messages@,
        authority_denial(old(store), caller).is_some() ==> r == Err::<(), EngineError>(
            EngineError::Authorization(authority_denial(old(store), caller).unwrap()),
        ) && *final(store) == *old(store),
        authority_denial(old(store), caller).is_none() && (is_blank(api_key@) || is_blank(
            api_secret@,
        ) || is_blank(jwt@)) ==> r == Err::<(), EngineError>(
            EngineError::Validation(Invalid::EmptyCredentials),
        ) && *final(store) == *old(store),
        authority_denial(old(store), caller).is_none() && !(is_blank(api_key@) || is_blank(
            api_secret@,
        ) || is_blank(jwt@)) ==> r.is_ok() && final(store).ipfs_config.is_some() && final(store).ipfs_config.unwrap().api_key@ == trim_of(api_key@) && final(store).ipfs_config.unwrap().api_secret@ == trim_of(api_secret@) && final(store).ipfs_config.unwrap().jwt@ == trim_of(jwt@),
{
    match ensure_authority(store, caller) {
        Err(e) => {
            return Err(e);
        },
        Ok(()) => {},
    }
    if blank(api_key.as_str()) || blank(api_secret.as_str()) || blank(jwt.as_str()) {
        return Err(EngineError::Validation(Invalid::EmptyCredentials));
    }
    let config = crate::types::IpfsConfig {
        api_key: trimmed(api_key.as_str()),
        api_secret: trimmed(api_secret.as_str()),
        jwt: trimmed(jwt.as_str()),
    };
    crate::store::set_ipfs_config(store, config);
    Ok(())
}

/// Removes authority `id`; an authority cannot remove itself.
pub fn remove_authority(store: &mut Store, caller: &Identity, id: &Identity) -> (r: Result<
    (),
    EngineError,
>)
    requires
        old(store).wf(),
    ensures
        final(store).wf(),
        final(store).same_but_authorities(old(store)),
        authority_denial(old(store), caller).is_some() ==> r == Err::<(), EngineError>(
            EngineError::Authorization(authority_denial(old(store), caller).unwrap()),
        ) && *final(store) == *old(store),
        authority_denial(old(store), caller).is_none() && !has_authority(
            old(store).authorities@,
            id@,
        ) ==> r == Err::<(), EngineError>(EngineError::Validation(Invalid::NotAnAuthority))
            && *final(store) == *old(store),
        authority_denial(old(store), caller).is_none() && has_authority(old(store).authorities@, id@)
            && id@ == caller@ ==> r == Err::<(), EngineError>(
            EngineError::Validation(Invalid::SelfRemoval),
        ) && *final(store) == *old(store),
        authority_denial(old(store), caller).is_none() && has_authority(old(store).authorities@, id@)
            && id@ != caller@ ==> r.is_ok() && !has_authority(final(store).authorities@, id@)
            && (forall|other: Seq<u8>|
            other != id@ ==> #[trigger] has_authority(final(store).authorities@, other)
                == has_authority(old(store).authorities@, other)) && (forall|other: Seq<u8>|
            other != id@ && has_authority(old(store).authorities@, other) ==> #[trigger] authority_of(
                final(store).authorities@,
                other,
            ) == authority_of(old(store).authorities@, other)),
{
    match ensure_authority(store, caller) {
        Err(e) => {
            return Err(e);
        },
        Ok(()) => {},
    }
    if !crate::store::is_authority(store, id) {
        return Err(EngineError::Validation(Invalid::NotAnAuthority));
    }
    if id.same(caller) {
        return Err(EngineError::Validation(Invalid::SelfRemoval));
    }
    crate::store::remove_authority(store, id);
    Ok(())
}

/// Copies of all authorities, for authorities.
pub fn get_all_authorities(store: &Store, caller: &Identity) -> (r: Result<
    Vec<Authority>,
    EngineError,
>)
    requires
        store.wf(),
    ensures
        authority_denial(store, caller).is_some() ==> r == Err::<Vec<Authority>, EngineError>(
            EngineError::Authorization(authority_denial(store, caller).unwrap()),
        ),
        authority_denial(store, caller).is_none() ==> r.is_ok() && r.unwrap()@.len()
            == store.authorities@.len() && forall|i: int|
            0 <= i < store.authorities@.len() ==> (#[trigger] r.unwrap()@[i]).same(
                store.authorities@[i],
            ),
{
    match ensure_authority(store, caller) {
        Err(e) => Err(e),
        Ok(()) => Ok(crate::store::get_all_authorities(store)),
    }
}

/// For authorities: reseeds the store, which seeds no records.
pub fn reset_to_mock_data(store: &mut Store, caller: &Identity) -> (r: Result<(), EngineError>)
    requires
        old(store).wf(),
    ensures
        *final(store) == *old(store),
        r == match authority_denial(old(store), caller) {
            Some(d) => Err::<(), EngineError>(EngineError::Authorization(d)),
            None => Ok(()),
        },
{
    match ensure_authority(store, caller) {
        Err(e) => {
            return Err(e);
        },
        Ok(()) => {},
    }
    crate::store::initialize_mock_data(store);
    Ok(())
}

/// The principal that is always registered as an authority.
pub const AUTHORIZED_PRINCIPAL: &'static str =
    "d27x5-vpdgv-xg4ve-woszp-ulej4-4hlq4-xrlwz-nyedm-rtjsa-a2d2z-oqe";

/// The deploying controller, which may also clean up the authorities.
pub const CONTROLLER_PRINCIPAL: &'static str =
    "hf7uc-glbhb-eoag6-ebhuc-k3y5f-3wp7c-4kvdw-wfgah-j2om5-tw57e-gqe";

/// The bytes of the principal that a text spells, where it spells one.
pub uninterp spec fn principal_of_text(text: Seq<char>) -> Option<Seq<u8>>;

/// Relies on `candid::Principal::from_text`, which parses the textual form of a
/// principal (and on `as_slice` for its bytes); the result depends on the text alone.
#[verifier::external_body]
pub(crate) fn principal_from_text(text: &str) -> (r: Option<Identity>)
    ensures
        r.is_some() == principal_of_text(text@).is_some(),
        r.is_some() ==> r.unwrap()@ == principal_of_text(text@).unwrap(),
{
    match candid::Principal::from_text(text) {
        Ok(p) => Some(Identity::new(p.as_slice().to_vec())),
        Err(_) => None,
    }
}

/// Registers the distinguished authority where it is missing; an existing
/// record is kept as it is.
pub fn ensure_hardcoded_authority(store: &mut Store)
    requires
        old(store).wf(),
    ensures
        final(store).wf(),
        final(store).same_but_authorities(old(store)),
        principal_of_text(AUTHORIZED_PRINCIPAL@) is None ==> *final(store) == *old(store),
        principal_of_text(AUTHORIZED_PRINCIPAL@) is Some ==> {
            let id = principal_of_text(AUTHORIZED_PRINCIPAL@).unwrap();
            &&& has_authority(final(store).authorities@, id)
            &&& has_authority(old(store).authorities@, id) ==> *final(store) == *old(store)
            &&& !has_authority(old(store).authorities@, id) ==> final(store).authorities@.drop_last()
                == old(store).authorities@ && final(store).authorities@.last().id@ == id
        },
{
    match principal_from_text(AUTHORIZED_PRINCIPAL) {
        Some(id) => {
            if !crate::store::is_authority(store, &id) {
                let ghost aus = store.authorities@;
                let ghost idv = id@;
                let a = Authority::fresh(id);
                let ghost av = a;
                crate::store::add_authority(store, a);
                proof {
                    lemma_put_authority(aus, av);
                    assert(store.authorities@.drop_last() =~= aus);
                }
            }
        },
        None => {},
    }
}

/// Start-up: indexes rebuilt from the reports (whatever state they were in),
/// placeholder credentials where none are set, and the distinguished authority
/// registered where it is missing.
pub fn init(store: &mut Store)
    requires
        old(store).records_wf(),
    ensures
        final(store).wf(),
        final(store).reports@ == old(store).reports@,
        final(store).users@ == old(store).users@,
        final(store).messages@ == old(store).messages@,
        principal_of_text(AUTHORIZED_PRINCIPAL@) is Some ==> has_authority(
            final(store).authorities@,
            principal_of_text(AUTHORIZED_PRINCIPAL@).unwrap(),
        ),
        principal_of_text(AUTHORIZED_PRINCIPAL@) is Some && has_authority(
            old(store).authorities@,
            principal_of_text(AUTHORIZED_PRINCIPAL@).unwrap(),
        ) ==> final(store).authorities@ == old(store).authorities@,
        principal_of_text(AUTHORIZED_PRINCIPAL@) is Some && !has_authority(
            old(store).authorities@,
            principal_of_text(AUTHORIZED_PRINCIPAL@).unwrap(),
        ) ==> final(store).authorities@.drop_last() == old(store).authorities@,
        principal_of_text(AUTHORIZED_PRINCIPAL@) is None ==> final(store).authorities@ == old(
            store).authorities@,
        old(store).ipfs_config.is_some() ==> final(store).ipfs_config == old(store).ipfs_config,
        final(store).ipfs_config.is_some(),
{
    crate::store::rebuild_indexes(store);
    crate::store::ensure_default_ipfs_config(store);
    ensure_hardcoded_authority(store);
}

/// After an upgrade: the same steps as at start-up.
pub fn post_upgrade(store: &mut Store)
    requires
        old(store).records_wf(),
    ensures
        final(store).wf(),
        final(store).reports@ == old(store).reports@,
        final(store).users@ == old(store).users@,
        final(store).messages@ == old(store).messages@,
        principal_of_text(AUTHORIZED_PRINCIPAL@) is Some ==> has_authority(
            final(store).authorities@,
            principal_of_text(AUTHORIZED_PRINCIPAL@).unwrap(),
        ),
        principal_of_text(AUTHORIZED_PRINCIPAL@) is Some && has_authority(
            old(store).authorities@,
            principal_of_text(AUTHORIZED_PRINCIPAL@).unwrap(),
        ) ==> final(store).authorities@ == old(store).authorities@,
        principal_of_text(AUTHORIZED_PRINCIPAL@) is Some && !has_authority(
            old(store).authorities@,
            principal_of_text(AUTHORIZED_PRINCIPAL@).unwrap(),
        ) ==> final(store).authorities@.drop_last() == old(store).authorities@,
        principal_of_text(AUTHORIZED_PRINCIPAL@) is None ==> final(store).authorities@ == old(
            store).authorities@,
        old(store).ipfs_config.is_some() ==> final(store).ipfs_config == old(store).ipfs_config,
        final(store).ipfs_config.is_some(),
{
    init(store)
}

} // verus!

verus! {

/// Largest evidence file accepted, in bytes.
pub const MAX_EVIDENCE_BYTES: usize = 2097152;

/// Longest message, in characters.
pub const MAX_MESSAGE_CHARS: usize = 2000;

/// Why `upload_evidence` refuses, if it does.
pub open spec fn upload_error(
    store: &Store,
    caller: &Identity,
    report_id: u64,
    data: Seq<u8>,
) -> Option<EngineError> {
    if caller@ == anonymous_bytes() {
        Some(EngineError::Authorization(Denial::Anonymous))
    } else if data.len() == 0 {
        Some(EngineError::Validation(Invalid::EmptyEvidence))
    } else if data.len() > MAX_EVIDENCE_BYTES {
        Some(EngineError::Validation(Invalid::EvidenceTooLarge))
    } else if !(1 <= report_id <= store.reports@.len()) {
        Some(EngineError::NotFound(Missing::Report))
    } else if store.reports@[report_id - 1].submitter_id@ != caller@ {
        Some(EngineError::Authorization(Denial::NotOwner))
    } else if store.evidence_files@.len() + 2 >= u64::MAX
        || store.reports@[report_id - 1].evidence_files@.len() >= u32::MAX {
        Some(EngineError::Overflow)
    } else {
        None
    }
}

/// Stores an evidence file for the caller's own report `report_id` and lists
/// it on the report. Returns the evidence id.
pub fn upload_evidence(
    store: &mut Store,
    caller: &Identity,
    now: u64,
    report_id: u64,
    file_name: String,
    file_type: String,
    file_data: Vec<u8>,
) -> (r: Result<u64, EngineError>)
    requires
        old(store).wf(),
    ensures
        final(store).wf(),
        ids_advance(old(store), final(store)),
        keeps_terminal(old(store), final(store)),
        match upload_error(old(store), caller, report_id, file_data@) {
            Some(e) => r == Err::<u64, EngineError>(e) && *final(store) == *old(store),
            None => r == Ok::<u64, EngineError>(old(store).next_evidence_id() as u64),
        },
        r.is_ok() ==> {
            let id = r.unwrap();
            let i = report_id - 1;
            let rep = old(store).reports@[i];
            let ev = final(store).evidence_files@.last();
            &&& final(store).evidence_files@.len() == old(store).evidence_files@.len() + 1
            &&& final(store).evidence_files@.drop_last() == old(store).evidence_files@
            &&& ev.id == id
            &&& ev.name@ == trim_of(file_name@)
            &&& ev.file_type@ == trim_of(file_type@)
            &&& ev.data@ == file_data@
            &&& ev.upload_date == now
            &&& ev.ipfs_cid.is_none()
            &&& final(store).reports@.len() == old(store).reports@.len()
            &&& forall|j: int|
                0 <= j < old(store).reports@.len() && j != i ==> #[trigger] final(store).reports@[j]
                    == old(store).reports@[j]
            &&& final(store).reports@[i].evidence_files@ == rep.evidence_files@.push(id)
            &&& final(store).reports@[i].evidence_count == rep.evidence_files@.len() + 1
            &&& final(store).reports@[i].same(
                Report {
                    evidence_files: final(store).reports@[i].evidence_files,
                    evidence_count: final(store).reports@[i].evidence_count,
                    ..rep
                },
            )
            &&& final(store).users@ == old(store).users@
            &&& final(store).authorities@ == old(store).authorities@
            &&& final(store).messages@ == old(store).messages@
        },
{
    if caller.is_anonymous() {
        return Err(EngineError::Authorization(Denial::Anonymous));
    }
    if file_data.len() == 0 {
        return Err(EngineError::Validation(Invalid::EmptyEvidence));
    }
    if file_data.len() > MAX_EVIDENCE_BYTES {
        return Err(EngineError::Validation(Invalid::EvidenceTooLarge));
    }
    if report_id == 0 || report_id > store.reports.len() as u64 {
        return Err(EngineError::NotFound(Missing::Report));
    }
    let i = (report_id - 1) as usize;
    if !store.reports[i].submitter_id.same(caller) {
        return Err(EngineError::Authorization(Denial::NotOwner));
    }
    if store.evidence_files.len() as u64 >= u64::MAX - 2 || store.reports[i].evidence_files.len()
        >= u32::MAX as usize {
        return Err(EngineError::Overflow);
    }
    let ghost s0 = *store;
    let evidence = crate::types::EvidenceFile {
        id: 0,
        name: trimmed(file_name.as_str()),
        file_type: trimmed(file_type.as_str()),
        data: file_data,
        upload_date: now,
        ipfs_cid: None,
    };
    let evidence_id = crate::store::add_evidence_file(store, &evidence);
    let mut updated = store.reports[i].duplicate();
    updated.evidence_files.push(evidence_id);
    updated.evidence_count = updated.evidence_files.len() as u32;
    let ghost u = updated;
    let _ = update_report(store, updated);
    proof {
        assert(store.reports@[i as int] == u);
        assert forall|j: int|
            0 <= j < s0.reports@.len() && (#[trigger] s0.reports@[j]).status.is_terminal() implies store.reports@[j].status
            == s0.reports@[j].status by {
            if j == i {
                assert(u.status == s0.reports@[j].status);
            }
        }
    }
    Ok(evidence_id)
}

/// Why a message is refused for its content, if it is.
pub open spec fn content_error(content: Seq<char>) -> Option<EngineError> {
    if is_blank(content) {
        Some(EngineError::Validation(Invalid::EmptyMessage))
    } else if content.len() > MAX_MESSAGE_CHARS {
        Some(EngineError::Validation(Invalid::MessageTooLong))
    } else {
        None
    }
}

/// `new` has one message more than `old`: `sender`'s `text` about `report_id`.
pub open spec fn appended_message(
    old: &Store,
    new: &Store,
    report_id: u64,
    sender: MessageSender,
    text: Seq<char>,
    now: u64,
) -> bool {
    let m = new.messages@.last();
    &&& new.messages@.len() == old.messages@.len() + 1
    &&& new.messages@.drop_last() == old.messages@
    &&& m.id == old.next_message_id()
    &&& m.report_id == report_id
    &&& m.sender.same(sender)
    &&& m.content@ == text
    &&& m.timestamp == now
    &&& m.attachment.is_none()
}

/// Why `send_message_as_authority` refuses, if it does.
pub open spec fn authority_message_error(
    store: &Store,
    caller: &Identity,
    report_id: u64,
    content: Seq<char>,
) -> Option<EngineError> {
    if authority_denial(store, caller).is_some() {
        Some(EngineError::Authorization(authority_denial(store, caller).unwrap()))
    } else if content_error(content).is_some() {
        content_error(content)
    } else if !(1 <= report_id <= store.reports@.len()) {
        Some(EngineError::NotFound(Missing::Report))
    } else if store.messages@.len() + 2 >= u64::MAX {
        Some(EngineError::Overflow)
    } else {
        None
    }
}

/// An authority writes to the submitter of report `report_id`.
pub fn send_message_as_authority(
    store: &mut Store,
    caller: &Identity,
    now: u64,
    report_id: u64,
    content: String,
) -> (r: Result<(), EngineError>)
    requires
        old(store).wf(),
    ensures
        final(store).wf(),
        final(store).same_but_messages(old(store)),
        ids_advance(old(store), final(store)),
        keeps_terminal(old(store), final(store)),
        match authority_message_error(old(store), caller, report_id, content@) {
            Some(e) => r == Err::<(), EngineError>(e) && *final(store) == *old(store),
            None => r == Ok::<(), EngineError>(()) && appended_message(
                old(store),
                final(store),
                report_id,
                MessageSender::Authority(*caller),
                trim_of(content@),
                now,
            ),
        },
{
    match ensure_authority(store, caller) {
        Err(e) => {
            return Err(e);
        },
        Ok(()) => {},
    }
    if blank(content.as_str()) {
        return Err(EngineError::Validation(Invalid::EmptyMessage));
    }
    if char_count(&content) > MAX_MESSAGE_CHARS {
        return Err(EngineError::Validation(Invalid::MessageTooLong));
    }
    if report_id == 0 || report_id > store.reports.len() as u64 {
        return Err(EngineError::NotFound(Missing::Report));
    }
    if store.messages.len() as u64 >= u64::MAX - 2 {
        return Err(EngineError::Overflow);
    }
    let m = Message {
        id: 0,
        report_id,
        sender: MessageSender::Authority(caller.duplicate()),
        content: trimmed(content.as_str()),
        timestamp: now,
        attachment: None,
    };
    let ghost s0 = *store;
    crate::store::create_message(store, &m);
    proof {
        assert forall|k: int| 0 <= k < s0.messages@.len() implies #[trigger] store.messages@[k]
            == s0.messages@[k] by {
            assert(store.messages@.drop_last()[k] == store.messages@[k]);
        }
    }
    Ok(())
}

/// Why `send_message_as_reporter` refuses, if it does.
pub open spec fn reporter_message_error(
    store: &Store,
    caller: &Identity,
    report_id: u64,
    content: Seq<char>,
) -> Option<EngineError> {
    if caller@ == anonymous_bytes() {
        Some(EngineError::Authorization(Denial::Anonymous))
    } else if content_error(content).is_some() {
        content_error(content)
    } else if !(1 <= report_id <= store.reports@.len()) {
        Some(EngineError::NotFound(Missing::Report))
    } else if store.reports@[report_id - 1].submitter_id@ != caller@ {
        Some(EngineError::Authorization(Denial::NotOwner))
    } else if store.messages@.len() + 2 >= u64::MAX {
        Some(EngineError::Overflow)
    } else {
        None
    }
}

/// The submitter of report `report_id` writes to the authorities.
pub fn send_message_as_reporter(
    store: &mut Store,
    caller: &Identity,
    now: u64,
    report_id: u64,
    content: String,
) -> (r: Result<(), EngineError>)
    requires
        old(store).wf(),
    ensures
        final(store).wf(),
        final(store).same_but_messages(old(store)),
        ids_advance(old(store), final(store)),
        keeps_terminal(old(store), final(store)),
        match reporter_message_error(old(store), caller, report_id, content@) {
            Some(e) => r == Err::<(), EngineError>(e) && *final(store) == *old(store),
            None => r == Ok::<(), EngineError>(()) && appended_message(
                old(store),
                final(store),
                report_id,
                MessageSender::Reporter(*caller),
                trim_of(content@),
                now,
            ),
        },
{
    if caller.is_anonymous() {
        return Err(EngineError::Authorization(Denial::Anonymous));
    }
    if blank(content.as_str()) {
        return Err(EngineError::Validation(Invalid::EmptyMessage));
    }
    if char_count(&content) > MAX_MESSAGE_CHARS {
        return Err(EngineError::Validation(Invalid::MessageTooLong));
    }
    if report_id == 0 || report_id > store.reports.len() as u64 {
        return Err(EngineError::NotFound(Missing::Report));
    }
    if !store.reports[(report_id - 1) as usize].submitter_id.same(caller) {
        return Err(EngineError::Authorization(Denial::NotOwner));
    }
    if store.messages.len() as u64 >= u64::MAX - 2 {
        return Err(EngineError::Overflow);
    }
    let m = Message {
        id: 0,
        report_id,
        sender: MessageSender::Reporter(caller.duplicate()),
        content: trimmed(content.as_str()),
        timestamp: now,
        attachment: None,
    };
    let ghost s0 = *store;
    crate::store::create_message(store, &m);
    proof {
        assert forall|k: int| 0 <= k < s0.messages@.len() implies #[trigger] store.messages@[k]
            == s0.messages@[k] by {
            assert(store.messages@.drop_last()[k] == store.messages@[k]);
        }
    }
    Ok(())
}

} // verus!

verus! {

/// The ids among `ids` whose report exists in `rs` and satisfies `q`, in list order.
pub open spec fn filter_ids(ids: Seq<u64>, rs: Seq<Report>, q: spec_fn(Report) -> bool) -> Seq<u64>
    decreases ids.len(),
{
    if ids.len() == 0 {
        Seq::empty()
    } else {
        let before = filter_ids(ids.drop_last(), rs, q);
        let x = ids.last();
        if 1 <= x <= rs.len() && q(rs[x - 1]) {
            before.push(x)
        } else {
            before
        }
    }
}

/// Narrowing a scan by a stricter test gives the scan by that test.
pub proof fn lemma_filter_scan(
    rs: Seq<Report>,
    n: int,
    p: spec_fn(Report) -> bool,
    q: spec_fn(Report) -> bool,
)
    requires
        crate::index::ids_dense(rs),
        0 <= n <= rs.len(),
        forall|r: Report| #[trigger] q(r) ==> p(r),
    ensures
        filter_ids(scan_ids(rs.subrange(0, n), p), rs, q) == scan_ids(rs.subrange(0, n), q),
    decreases n,
{
    if n > 0 {
        let pre = rs.subrange(0, n - 1);
        assert(rs.subrange(0, n).drop_last() =~= pre);
        assert(rs.subrange(0, n).last() == rs[n - 1]);
        assert(rs[n - 1].id == n);
        lemma_filter_scan(rs, n - 1, p, q);
        if p(rs[n - 1]) {
            assert(scan_ids(rs.subrange(0, n), p).drop_last() =~= scan_ids(pre, p));
        }
    }
}

/// A scan lists only ids of existing reports.
pub proof fn lemma_scan_in_range(rs: Seq<Report>, p: spec_fn(Report) -> bool)
    requires
        crate::index::ids_dense(rs),
    ensures
        forall|k: int|
            0 <= k < scan_ids(rs, p).len() ==> 1 <= #[trigger] scan_ids(rs, p)[k] <= rs.len(),
    decreases rs.len(),
{
    if rs.len() > 0 {
        let pre = rs.drop_last();
        assert forall|i: int| 0 <= i < pre.len() implies (#[trigger] pre[i]).id == i + 1 by {
            assert(pre[i] == rs[i]);
        }
        lemma_scan_in_range(pre, p);
        assert(rs.last().id == rs.len());
        let sc = scan_ids(rs, p);
        let sc0 = scan_ids(pre, p);
        assert forall|k: int| 0 <= k < sc.len() implies 1 <= #[trigger] sc[k] <= rs.len() by {
            if k < sc0.len() {
                assert(sc[k] == sc0[k]);
            }
        }
    }
}

/// What `search_reports` selects.
pub open spec fn search_match(
    r: Report,
    keyword: Option<String>,
    category: Option<String>,
    status: Option<ReportStatus>,
    date_from: Option<u64>,
    date_to: Option<u64>,
    min_stake: Option<u64>,
    max_stake: Option<u64>,
) -> bool {
    &&& keyword is Some ==> crate::text::occurs_in(lower_of(keyword.unwrap()@), lower_of(r.title@))
        || crate::text::occurs_in(lower_of(keyword.unwrap()@), lower_of(r.description@))
    &&& category is Some ==> lower_of(r.category@) == lower_of(category.unwrap()@)
    &&& status is Some ==> r.status == status.unwrap()
    &&& date_from is Some ==> r.date_submitted >= date_from.unwrap()
    &&& date_to is Some ==> r.date_submitted <= date_to.unwrap()
    &&& min_stake is Some ==> r.stake_amount >= min_stake.unwrap()
    &&& max_stake is Some ==> r.stake_amount <= max_stake.unwrap()
}

pub open spec fn search_pred(
    keyword: Option<String>,
    category: Option<String>,
    status: Option<ReportStatus>,
    date_from: Option<u64>,
    date_to: Option<u64>,
    min_stake: Option<u64>,
    max_stake: Option<u64>,
) -> spec_fn(Report) -> bool {
    |r: Report| search_match(r, keyword, category, status, date_from, date_to, min_stake, max_stake)
}

pub open spec fn any_report() -> spec_fn(Report) -> bool {
    |r: Report| true
}

/// Whether report `r` passes every given filter.
fn matches_search(
    r: &Report,
    keyword: &Option<String>,
    category: &Option<String>,
    status: &Option<ReportStatus>,
    date_from: &Option<u64>,
    date_to: &Option<u64>,
    min_stake: &Option<u64>,
    max_stake: &Option<u64>,
) -> (b: bool)
    ensures
        b == search_match(
            *r,
            *keyword,
            *category,
            *status,
            *date_from,
            *date_to,
            *min_stake,
            *max_stake,
        ),
{
    if let Some(k) = keyword {
        let k_low = lowercase(k.as_str());
        let t_low = lowercase(r.title.as_str());
        let d_low = lowercase(r.description.as_str());
        if !crate::text::contains_text(t_low.as_str(), k_low.as_str())
            && !crate::text::contains_text(d_low.as_str(), k_low.as_str()) {
            return false;
        }
    }
    if let Some(c) = category {
        let c_low = lowercase(c.as_str());
        let r_low = lowercase(r.category.as_str());
        if !(r_low == c_low) {
            return false;
        }
    }
    if let Some(s) = status {
        if r.status != *s {
            return false;
        }
    }
    if let Some(from) = date_from {
        if r.date_submitted < *from {
            return false;
        }
    }
    if let Some(to) = date_to {
        if r.date_submitted > *to {
            return false;
        }
    }
    if let Some(lo) = min_stake {
        if r.stake_amount < *lo {
            return false;
        }
    }
    if let Some(hi) = max_stake {
        if r.stake_amount > *hi {
            return false;
        }
    }
    true
}

/// The ids of all reports, in order.
fn all_report_ids(store: &Store) -> (ids: Vec<u64>)
    requires
        store.wf(),
    ensures
        ids@ == scan_ids(store.reports@, any_report()),
{
    let ghost rs = store.reports@;
    let mut ids: Vec<u64> = Vec::new();
    let mut i: usize = 0;
    while i < store.reports.len()
        invariant
            store.wf(),
            rs == store.reports@,
            i <= rs.len(),
            ids@ == scan_ids(rs.subrange(0, i as int), any_report()),
        decreases rs.len() - i,
    {
        let ghost pre = rs.subrange(0, i as int);
        let ghost next = rs.subrange(0, (i + 1) as int);
        assert(next.drop_last() =~= pre);
        assert(next.last() == rs[i as int]);
        ids.push(store.reports[i].id);
        i = i + 1;
    }
    assert(rs.subrange(0, rs.len() as int) =~= rs);
    ids
}

/// For authorities: the reports that pass every given filter, in id order. The
/// status index, else the category index, narrows the candidates first.
pub fn search_reports(
    store: &Store,
    caller: &Identity,
    keyword: Option<String>,
    category: Option<String>,
    status: Option<ReportStatus>,
    date_from: Option<u64>,
    date_to: Option<u64>,
    min_stake: Option<u64>,
    max_stake: Option<u64>,
) -> (r: Result<Vec<Report>, EngineError>)
    requires
        store.wf(),
    ensures
        authority_denial(store, caller).is_some() ==> r == Err::<Vec<Report>, EngineError>(
            EngineError::Authorization(authority_denial(store, caller).unwrap()),
        ),
        authority_denial(store, caller).is_none() ==> r.is_ok() && {
            let sel = scan_ids(
                store.reports@,
                search_pred(keyword, category, status, date_from, date_to, min_stake, max_stake),
            );
            &&& r.unwrap()@.len() == sel.len()
            &&& forall|k: int|
                0 <= k < sel.len() ==> (#[trigger] r.unwrap()@[k]).same(store.reports@[sel[k] - 1])
        },
{
    match ensure_authority(store, caller) {
        Err(e) => {
            return Err(e);
        },
        Ok(()) => {},
    }
    let ghost rs = store.reports@;
    let ghost q = search_pred(keyword, category, status, date_from, date_to, min_stake, max_stake);
    let ghost p: spec_fn(Report) -> bool;
    let empty: Vec<u64> = Vec::new();
    let all: Vec<u64>;
    let base: &Vec<u64> = if let Some(s) = status {
        proof {
            p = keyed(status_key(), s);
            assert(crate::index::bucket_ok(store.status_ids(s), rs, p));
            crate::index::lemma_bucket_is_scan(store.status_ids(s), rs, p);
        }
        match crate::store::find_status_bucket(&store.status_index, s) {
            Some(j) => {
                proof {
                    crate::index::lemma_ids_for_at(store.status_index@, j as int);
                }
                &store.status_index[j].ids
            },
            None => &empty,
        }
    } else if let Some(c) = &category {
        let key = lowercase(c.as_str());
        proof {
            p = keyed(crate::store::category_key(), key@);
            assert(crate::index::bucket_ok(store.category_ids(key@), rs, p));
            crate::index::lemma_bucket_is_scan(store.category_ids(key@), rs, p);
        }
        match crate::store::find_category_bucket(&store.category_index, &key) {
            Some(j) => {
                proof {
                    crate::index::lemma_ids_for_at(store.category_index@, j as int);
                }
                &store.category_index[j].ids
            },
            None => &empty,
        }
    } else {
        proof {
            p = any_report();
        }
        all = all_report_ids(store);
        &all
    };
    proof {
        assert(base@ == scan_ids(rs, p));
        assert forall|x: Report| #[trigger] q(x) implies p(x) by {}
        assert(rs.subrange(0, rs.len() as int) =~= rs);
        lemma_filter_scan(rs, rs.len() as int, p, q);
        lemma_scan_in_range(rs, p);
    }
    let mut out: Vec<Report> = Vec::new();
    let n = store.reports.len();
    let mut k: usize = 0;
    while k < base.len()
        invariant
            n == rs.len(),
            store.wf(),
            rs == store.reports@,
            k <= base@.len(),
            forall|m: int| 0 <= m < base@.len() ==> 1 <= #[trigger] base@[m] <= rs.len(),
            out@.len() == filter_ids(base@.subrange(0, k as int), rs, q).len(),
            forall|m: int|
                0 <= m < out@.len() ==> (#[trigger] out@[m]).same(
                    rs[filter_ids(base@.subrange(0, k as int), rs, q)[m] - 1],
                ),
            q == search_pred(keyword, category, status, date_from, date_to, min_stake, max_stake),
        decreases base@.len() - k,
    {
        let ghost pre = base@.subrange(0, k as int);
        let ghost next = base@.subrange(0, (k + 1) as int);
        assert(next.drop_last() =~= pre);
        let id = base[k];
        assert(next.last() == id);
        assert(1 <= base@[k as int] <= rs.len());
        let at = (id - 1) as usize;
        let keep = matches_search(
            &store.reports[at],
            &keyword,
            &category,
            &status,
            &date_from,
            &date_to,
            &min_stake,
            &max_stake,
        );
        assert(q(rs[at as int]) == keep);
        let ghost f0 = filter_ids(pre, rs, q);
        assert(next.len() > 0 && next.drop_last() == pre);
        assert(at as int == id - 1);
        assert(filter_ids(next, rs, q) == (if 1 <= next.last() <= rs.len() && q(rs[next.last() - 1]) {
            filter_ids(next.drop_last(), rs, q).push(next.last())
        } else {
            filter_ids(next.drop_last(), rs, q)
        }));
        if keep {
            out.push(store.reports[at].duplicate());
            assert(filter_ids(next, rs, q) == f0.push(id));
        } else {
            assert(filter_ids(next, rs, q) == f0);
        }
        k = k + 1;
    }
    assert(base@.subrange(0, base@.len() as int) =~= base@);
    Ok(out)
}

} // verus!
