use whispr_backend::handlers::{
    bulk_verify_reports, calculate_reward, get_authority_statistics, get_messages,
    get_user_balance, put_under_review, reject_report, submit_report, verify_report,
};
use whispr_backend::store::{self, Store};
use whispr_backend::types::{
    Authority, Denial, EngineError, Identity, Invalid, Missing, ReportStatus, User,
};

fn who(b: u8) -> Identity {
    Identity::new(vec![b, 1, 2])
}

fn with_authority(a: &Identity) -> Store {
    let mut s = Store::new();
    store::add_authority(&mut s, Authority::fresh(a.duplicate()));
    s
}

fn submit(s: &mut Store, u: &Identity, stake: u64, evidence: u32) -> Result<u64, EngineError> {
    submit_report(
        s,
        u,
        1_000,
        "Leaking barrels".to_string(),
        "Barrels leak into the river".to_string(),
        "environmental".to_string(),
        None,
        None,
        stake,
        evidence,
    )
}

fn user(s: &Store, u: &Identity) -> User {
    store::get_user(s, u).expect("user exists")
}

fn ledger_total(s: &Store) -> u64 {
    s.users.iter().map(|u| u.token_balance + u.stakes_active + u.stakes_lost).sum()
}

#[test]
fn verify_pays_stake_plus_reward() {
    let auth = who(1);
    let sub = who(2);
    let mut s = with_authority(&auth);
    let id = submit(&mut s, &sub, 20, 3).unwrap();
    let before = user(&s, &sub);
    assert_eq!(before.token_balance, 80);
    assert_eq!(before.stakes_active, 20);
    verify_report(&mut s, &auth, 2_000, id, None).unwrap();
    let after = user(&s, &sub);
    assert_eq!(after.token_balance, before.token_balance + 280);
    assert_eq!(after.stakes_active, 0);
    assert_eq!(after.rewards_earned, 260);
    let r = store::get_report(&s, id).unwrap();
    assert_eq!(r.status, ReportStatus::Approved);
    assert_eq!(r.reward_amount, 260);
    assert_eq!(r.review_date, Some(2_000));
    assert!(r.reviewer.unwrap().same(&auth));
    assert_eq!(s.stats.total_rewards_distributed, 260);
}

#[test]
fn reject_forfeits_stake() {
    let auth = who(1);
    let sub = who(2);
    let mut s = with_authority(&auth);
    let id = submit(&mut s, &sub, 10, 0).unwrap();
    let before = user(&s, &sub);
    reject_report(&mut s, &auth, 5, id, Some("insufficient evidence".to_string())).unwrap();
    let after = user(&s, &sub);
    assert_eq!(after.stakes_active, before.stakes_active - 10);
    assert_eq!(after.stakes_lost, before.stakes_lost + 10);
    assert_eq!(after.token_balance, before.token_balance);
    let r = store::get_report(&s, id).unwrap();
    assert_eq!(r.status, ReportStatus::Rejected);
    assert_eq!(r.review_notes, Some("insufficient evidence".to_string()));
    let msgs = get_messages(&s, &sub, id);
    assert_eq!(
        msgs.last().unwrap().content,
        "Report has been reviewed and rejected. Your staked 10 tokens have been forfeited. Reason: insufficient evidence"
    );
}

#[test]
fn two_authorities_and_partial_bulk_verify() {
    let a = who(1);
    let b = who(3);
    let sub = who(2);
    let mut s = with_authority(&a);
    store::add_authority(&mut s, Authority::fresh(b.duplicate()));
    let first = submit(&mut s, &sub, 10, 0).unwrap();
    let second = submit(&mut s, &sub, 10, 0).unwrap();
    verify_report(&mut s, &a, 10, first, None).unwrap();
    let done = bulk_verify_reports(&mut s, &b, 20, vec![second, 999], None).unwrap();
    assert_eq!(done, vec![second]);
    let ra = store::get_authority(&s, &a).unwrap();
    let rb = store::get_authority(&s, &b).unwrap();
    assert_eq!(ra.reports_reviewed, vec![first]);
    assert_eq!(rb.reports_reviewed, vec![second]);
    assert_eq!(ra.approved_count, 1);
    assert_eq!(rb.approved_count, 1);
}

#[test]
fn bulk_verify_skips_repeats_and_refuses_long_lists() {
    let a = who(1);
    let sub = who(2);
    let mut s = with_authority(&a);
    let id = submit(&mut s, &sub, 10, 0).unwrap();
    assert_eq!(bulk_verify_reports(&mut s, &a, 1, vec![id, id], None).unwrap(), vec![id]);
    assert_eq!(
        bulk_verify_reports(&mut s, &a, 1, vec![1; 11], None),
        Err(EngineError::Validation(Invalid::TooManyIds))
    );
    assert_eq!(
        bulk_verify_reports(&mut s, &sub, 1, vec![id], None),
        Err(EngineError::Authorization(Denial::NotAuthority))
    );
}

#[test]
fn value_grows_only_by_bonus_and_rewards() {
    let a = who(1);
    let u1 = who(2);
    let u2 = who(4);
    let mut s = with_authority(&a);
    assert_eq!(ledger_total(&s), 0);
    let r1 = submit(&mut s, &u1, 50, 3).unwrap();
    assert_eq!(ledger_total(&s), 100);
    let r2 = submit(&mut s, &u2, 30, 0).unwrap();
    assert_eq!(ledger_total(&s), 200);
    store::transfer_tokens(&mut s, &u1, &u2, 25).unwrap();
    assert_eq!(ledger_total(&s), 200);
    reject_report(&mut s, &a, 3, r2, Some("no".to_string())).unwrap();
    assert_eq!(ledger_total(&s), 200);
    verify_report(&mut s, &a, 4, r1, None).unwrap();
    assert_eq!(ledger_total(&s), 200 + 50 * 15);
}

#[test]
fn terminal_reports_stay_terminal() {
    let a = who(1);
    let sub = who(2);
    let mut s = with_authority(&a);
    let r1 = submit(&mut s, &sub, 10, 0).unwrap();
    let r2 = submit(&mut s, &sub, 10, 0).unwrap();
    let r3 = submit(&mut s, &sub, 10, 0).unwrap();
    verify_report(&mut s, &a, 1, r1, None).unwrap();
    reject_report(&mut s, &a, 1, r2, Some("why".to_string())).unwrap();
    put_under_review(&mut s, &a, 1, r3, Some("looking".to_string())).unwrap();
    let why = Some("again".to_string());
    assert_eq!(
        verify_report(&mut s, &a, 2, r1, None),
        Err(EngineError::StateConflict(ReportStatus::Approved))
    );
    assert_eq!(
        reject_report(&mut s, &a, 2, r1, why.clone()),
        Err(EngineError::StateConflict(ReportStatus::Approved))
    );
    assert_eq!(
        put_under_review(&mut s, &a, 2, r2, None),
        Err(EngineError::StateConflict(ReportStatus::Rejected))
    );
    assert_eq!(
        verify_report(&mut s, &a, 2, r3, None),
        Err(EngineError::StateConflict(ReportStatus::UnderReview))
    );
    assert_eq!(
        reject_report(&mut s, &a, 2, r3, why),
        Err(EngineError::StateConflict(ReportStatus::UnderReview))
    );
    let r = store::get_report(&s, r3).unwrap();
    assert_eq!(r.status, ReportStatus::UnderReview);
    assert_eq!(r.review_date, Some(1));
}

#[test]
fn ids_increase_and_failures_use_none() {
    let a = who(1);
    let sub = who(2);
    let mut s = with_authority(&a);
    assert_eq!(submit(&mut s, &sub, 10, 0), Ok(1));
    assert_eq!(submit(&mut s, &sub, 3, 0), Err(EngineError::Validation(Invalid::StakeTooLow)));
    assert_eq!(submit(&mut s, &sub, 10, 0), Ok(2));
    let ids: Vec<u64> = s.messages.iter().map(|m| m.id).collect();
    assert_eq!(ids, vec![1, 2]);
    verify_report(&mut s, &a, 1, 1, None).unwrap();
    assert_eq!(s.messages.last().unwrap().id, 3);
}

#[test]
fn reward_formula_values() {
    assert_eq!(calculate_reward(10, 0), 100);
    assert_eq!(calculate_reward(20, 3), 260);
    assert_eq!(calculate_reward(19, 3), 19 * 12);
    assert_eq!(calculate_reward(50, 2), 50 * 13);
    assert_eq!(calculate_reward(50, 3), 750);
    assert_eq!(calculate_reward(1000, 10), 15_000);
}

#[test]
fn submit_errors_in_order() {
    let a = who(1);
    let sub = who(2);
    let mut s = with_authority(&a);
    let go = |s: &mut Store, u: &Identity, t: &str, d: &str, c: &str, stake: u64, ev: u32| {
        submit_report(s, u, 0, t.to_string(), d.to_string(), c.to_string(), None, None, stake, ev)
    };
    let anon = Identity::anonymous();
    assert_eq!(
        go(&mut s, &anon, "t", "d", "fraud", 10, 0),
        Err(EngineError::Authorization(Denial::Anonymous))
    );
    assert_eq!(go(&mut s, &sub, "  ", "d", "fraud", 10, 0), Err(EngineError::Validation(Invalid::EmptyTitle)));
    let long_title = "x".repeat(201);
    assert_eq!(
        go(&mut s, &sub, &long_title, "d", "fraud", 10, 0),
        Err(EngineError::Validation(Invalid::TitleTooLong))
    );
    assert!(go(&mut s, &sub, &"x".repeat(200), "d", "fraud", 10, 0).is_ok());
    assert_eq!(go(&mut s, &sub, "t", "\n", "fraud", 10, 0), Err(EngineError::Validation(Invalid::EmptyDescription)));
    assert_eq!(
        go(&mut s, &sub, "t", &"y".repeat(5001), "fraud", 10, 0),
        Err(EngineError::Validation(Invalid::DescriptionTooLong))
    );
    assert_eq!(go(&mut s, &sub, "t", "d", "gossip", 10, 0), Err(EngineError::Validation(Invalid::Category)));
    assert_eq!(go(&mut s, &sub, "t", "d", "fraud", 4, 0), Err(EngineError::Validation(Invalid::StakeTooLow)));
    assert_eq!(go(&mut s, &sub, "t", "d", "fraud", 1001, 0), Err(EngineError::Validation(Invalid::StakeTooHigh)));
    assert_eq!(
        go(&mut s, &sub, "t", "d", "fraud", 10, 11),
        Err(EngineError::Validation(Invalid::TooManyEvidence))
    );
    assert_eq!(go(&mut s, &sub, "t", "d", "fraud", 1000, 0), Err(EngineError::InsufficientBalance));
}

#[test]
fn new_user_cannot_stake_beyond_bonus_and_is_not_created() {
    let sub = who(7);
    let mut s = Store::new();
    assert_eq!(submit(&mut s, &sub, 101, 0), Err(EngineError::InsufficientBalance));
    assert!(store::get_user(&s, &sub).is_none());
    assert_eq!(submit(&mut s, &sub, 100, 0), Ok(1));
    assert_eq!(user(&s, &sub).token_balance, 0);
}

#[test]
fn at_most_five_pending_reports() {
    let sub = who(2);
    let mut s = Store::new();
    for _ in 0..5 {
        submit(&mut s, &sub, 5, 0).unwrap();
    }
    assert_eq!(submit(&mut s, &sub, 5, 0), Err(EngineError::Validation(Invalid::TooManyPending)));
}

#[test]
fn submission_normalises_fields_and_posts_notice() {
    let sub = who(2);
    let mut s = Store::new();
    let id = submit_report(
        &mut s,
        &sub,
        77,
        "  Bribe at the harbour  ".to_string(),
        " Officials asked for cash ".to_string(),
        "BRIBERY".to_string(),
        None,
        Some("2024-01-02".to_string()),
        20,
        2,
    )
    .unwrap();
    let r = store::get_report(&s, id).unwrap();
    assert_eq!(r.title, "Bribe at the harbour");
    assert_eq!(r.description, "Officials asked for cash");
    assert_eq!(r.category, "bribery");
    assert_eq!(r.date_submitted, 77);
    assert_eq!(r.incident_date, Some("2024-01-02".to_string()));
    assert_eq!(r.evidence_count, 2);
    assert_eq!(user(&s, &sub).reports_submitted, vec![id]);
    let msgs = get_messages(&s, &sub, id);
    assert_eq!(msgs.len(), 1);
    assert_eq!(
        msgs[0].content,
        "Report submitted with a stake of 20 tokens. Your report is now pending review."
    );
}

#[test]
fn approval_notice_lists_amounts_and_notes() {
    let a = who(1);
    let sub = who(2);
    let mut s = with_authority(&a);
    let id = submit(&mut s, &sub, 20, 3).unwrap();
    verify_report(&mut s, &a, 2, id, Some("solid".to_string())).unwrap();
    let msgs = get_messages(&s, &a, id);
    assert_eq!(
        msgs.last().unwrap().content,
        "Report has been verified and approved! 20 tokens returned + 260 tokens reward = 280 total tokens added to your account. Authority notes: solid"
    );
}

#[test]
fn review_errors() {
    let a = who(1);
    let sub = who(2);
    let mut s = with_authority(&a);
    let id = submit(&mut s, &sub, 10, 0).unwrap();
    assert_eq!(
        verify_report(&mut s, &Identity::anonymous(), 1, id, None),
        Err(EngineError::Authorization(Denial::Anonymous))
    );
    assert_eq!(
        verify_report(&mut s, &sub, 1, id, None),
        Err(EngineError::Authorization(Denial::NotAuthority))
    );
    assert_eq!(verify_report(&mut s, &a, 1, 42, None), Err(EngineError::NotFound(Missing::Report)));
    assert_eq!(
        reject_report(&mut s, &a, 1, id, None),
        Err(EngineError::Validation(Invalid::MissingReason))
    );
    assert_eq!(
        reject_report(&mut s, &a, 1, id, Some("   ".to_string())),
        Err(EngineError::Validation(Invalid::MissingReason))
    );
    s.users.clear();
    assert_eq!(verify_report(&mut s, &a, 1, id, None), Err(EngineError::NotFound(Missing::User)));
}

#[test]
fn balance_query_creates_user_once() {
    let u = who(9);
    let mut s = Store::new();
    assert_eq!(get_user_balance(&mut s, &Identity::anonymous()), 0);
    assert_eq!(get_user_balance(&mut s, &u), 100);
    assert_eq!(s.users.len(), 1);
    assert_eq!(get_user_balance(&mut s, &u), 100);
    assert_eq!(s.users.len(), 1);
}

#[test]
fn statistics_count_by_status() {
    let a = who(1);
    let sub = who(2);
    let mut s = with_authority(&a);
    let r1 = submit(&mut s, &sub, 20, 0).unwrap();
    let r2 = submit(&mut s, &sub, 10, 0).unwrap();
    let _r3 = submit(&mut s, &sub, 10, 0).unwrap();
    let r4 = submit(&mut s, &sub, 10, 0).unwrap();
    verify_report(&mut s, &a, 1, r1, None).unwrap();
    reject_report(&mut s, &a, 1, r2, Some("no".to_string())).unwrap();
    put_under_review(&mut s, &a, 1, r4, None).unwrap();
    let st = get_authority_statistics(&s, &a).unwrap();
    assert_eq!(st.reports_pending, 1);
    assert_eq!(st.reports_verified, 1);
    assert_eq!(st.reports_rejected, 1);
    assert_eq!(st.total_rewards_distributed, 20 * 11);
}

#[test]
fn balances_never_wrap() {
    let a = who(1);
    let u = who(2);
    let v = who(5);
    let mut s = with_authority(&a);
    whispr_backend::service::add_tokens_to_user(&mut s, &a, &u, u64::MAX).unwrap();
    assert_eq!(
        whispr_backend::service::add_tokens_to_user(&mut s, &a, &u, 1),
        Err(EngineError::Overflow)
    );
    whispr_backend::service::add_tokens_to_user(&mut s, &a, &v, 10).unwrap();
    assert_eq!(store::transfer_tokens(&mut s, &v, &u, 1), Err(EngineError::Overflow));
    assert_eq!(user(&s, &u).token_balance, u64::MAX);
    assert_eq!(user(&s, &v).token_balance, 10);
}

#[test]
fn bulk_verify_leaves_unsettleable_reports_alone() {
    let a = who(1);
    let sub = who(2);
    let mut s = with_authority(&a);
    let held = submit(&mut s, &sub, 10, 0).unwrap();
    let open = submit(&mut s, &sub, 20, 3).unwrap();
    put_under_review(&mut s, &a, 1, held, None).unwrap();
    let before = user(&s, &sub);
    let done = bulk_verify_reports(&mut s, &a, 2, vec![held, open, 77], None).unwrap();
    assert_eq!(done, vec![open]);
    assert_eq!(store::get_report(&s, held).unwrap().status, ReportStatus::UnderReview);
    assert_eq!(store::get_report(&s, held).unwrap().reward_amount, 0);
    let after = user(&s, &sub);
    assert_eq!(after.token_balance, before.token_balance + 20 + 260);
    assert_eq!(bulk_verify_reports(&mut s, &a, 3, vec![held, open, 77], None).unwrap(), Vec::<u64>::new());
    assert_eq!(user(&s, &sub).token_balance, after.token_balance);
}

#[test]
fn rejection_carries_no_reward_and_rates_are_derived() {
    let a = who(1);
    let sub = who(2);
    let mut s = with_authority(&a);
    let r1 = submit(&mut s, &sub, 10, 0).unwrap();
    let r2 = submit(&mut s, &sub, 10, 0).unwrap();
    verify_report(&mut s, &a, 1, r1, None).unwrap();
    reject_report(&mut s, &a, 1, r2, Some("no".to_string())).unwrap();
    assert_eq!(store::get_report(&s, r2).unwrap().reward_amount, 0);
    assert_eq!(whispr_backend::handlers::authority_approval(&s, &a), Some((1, 2)));
    assert_eq!(whispr_backend::handlers::authority_approval(&s, &sub), None);
    s.stats.total_rewards_distributed = 0;
    assert_eq!(get_authority_statistics(&s, &a).unwrap().total_rewards_distributed, 100);
}
