use whispr_backend::archive::{
    EvidenceSnapshot, ReportSnapshot, evidence_pin_name, hash_principal, is_success_status,
    report_pin_name,
};
use whispr_backend::handlers::{
    add_new_authority, configure_ipfs_credentials, get_report, init, remove_authority,
    search_reports, send_message_as_authority, send_message_as_reporter, submit_report,
    upload_evidence, verify_report,
};
use whispr_backend::service::{
    add_tokens_to_user, cleanup_unauthorized_authorities, get_evidence, get_report_evidence,
    get_reports_by_date_range, initialize_system,
};
use whispr_backend::store::{self, Store};
use whispr_backend::types::{
    Authority, Denial, EngineError, EvidenceFile, Identity, Invalid, Missing, Report,
    ReportStatus,
};

fn who(b: u8) -> Identity {
    Identity::new(vec![b, 9])
}

fn file(s: &mut Store, u: &Identity, title: &str, category: &str, stake: u64, now: u64) -> u64 {
    submit_report(
        s,
        u,
        now,
        title.to_string(),
        "details".to_string(),
        category.to_string(),
        None,
        None,
        stake,
        0,
    )
    .unwrap()
}

fn ids(rs: &[Report]) -> Vec<u64> {
    rs.iter().map(|r| r.id).collect()
}

fn scan(s: &Store, keep: impl Fn(&Report) -> bool) -> Vec<u64> {
    store::get_all_reports(s).iter().filter(|r| keep(r)).map(|r| r.id).collect()
}

#[test]
fn index_lookups_match_full_scan() {
    let a = who(1);
    let mut s = Store::new();
    store::add_authority(&mut s, Authority::fresh(a.duplicate()));
    let u = who(2);
    let v = who(3);
    file(&mut s, &u, "a", "fraud", 10, 1);
    file(&mut s, &v, "b", "Theft", 10, 2);
    file(&mut s, &u, "c", "FRAUD", 10, 3);
    file(&mut s, &v, "d", "theft", 10, 4);
    verify_report(&mut s, &a, 5, 3, None).unwrap();
    for st in [ReportStatus::Pending, ReportStatus::Approved, ReportStatus::Rejected] {
        assert_eq!(ids(&store::get_reports_by_status(&s, st)), scan(&s, |r| r.status == st));
    }
    assert_eq!(ids(&store::get_reports_by_category(&s, "Fraud")), vec![1, 3]);
    assert_eq!(ids(&store::get_reports_by_category(&s, "theft")), scan(&s, |r| r.category == "theft"));
    assert_eq!(ids(&store::get_reports_by_category(&s, "murder")), Vec::<u64>::new());
    assert_eq!(ids(&store::get_user_reports(&s, &u)), vec![1, 3]);

    let mut moved = store::get_report(&s, 1).unwrap();
    moved.category = "theft".to_string();
    moved.status = ReportStatus::Rejected;
    store::update_report(&mut s, moved).unwrap();
    assert_eq!(ids(&store::get_reports_by_category(&s, "theft")), vec![1, 2, 4]);
    assert_eq!(ids(&store::get_reports_by_category(&s, "fraud")), vec![3]);
    assert_eq!(ids(&store::get_reports_by_status(&s, ReportStatus::Rejected)), vec![1]);
    assert_eq!(ids(&store::get_reports_by_status(&s, ReportStatus::Pending)), vec![2, 4]);

    let snapshot: Vec<(ReportStatus, Vec<u64>)> = [ReportStatus::Pending, ReportStatus::Approved, ReportStatus::Rejected]
        .iter()
        .map(|st| (*st, ids(&store::get_reports_by_status(&s, *st))))
        .collect();
    s.status_index.clear();
    s.category_index.clear();
    s.submitter_index.clear();
    store::rebuild_indexes(&mut s);
    for (st, expected) in snapshot {
        assert_eq!(ids(&store::get_reports_by_status(&s, st)), expected);
    }
    assert_eq!(ids(&store::get_reports_by_category(&s, "THEFT")), vec![1, 2, 4]);
    assert_eq!(s.category_index.len(), 2);
}

#[test]
fn empty_buckets_are_dropped() {
    let a = who(1);
    let mut s = Store::new();
    store::add_authority(&mut s, Authority::fresh(a.duplicate()));
    let u = who(2);
    file(&mut s, &u, "a", "fraud", 10, 1);
    assert_eq!(s.status_index.len(), 1);
    verify_report(&mut s, &a, 2, 1, None).unwrap();
    assert_eq!(s.status_index.len(), 1);
    assert_eq!(s.status_index[0].key, ReportStatus::Approved);
    let stray = Report { id: 9, ..store::get_report(&s, 1).unwrap() };
    assert_eq!(store::update_report(&mut s, stray), Err(EngineError::NotFound(Missing::Report)));
}

#[test]
fn transfers_move_tokens_exactly() {
    let u = who(2);
    let v = who(3);
    let mut s = Store::new();
    assert_eq!(store::transfer_tokens(&mut s, &u, &v, 1), Err(EngineError::NotFound(Missing::User)));
    whispr_backend::handlers::get_user_balance(&mut s, &u);
    assert_eq!(store::transfer_tokens(&mut s, &u, &v, 101), Err(EngineError::InsufficientBalance));
    store::transfer_tokens(&mut s, &u, &v, 40).unwrap();
    assert_eq!(store::get_user(&s, &u).unwrap().token_balance, 60);
    assert_eq!(store::get_user(&s, &v).unwrap().token_balance, 40);
    store::transfer_tokens(&mut s, &u, &u, 60).unwrap();
    assert_eq!(store::get_user(&s, &u).unwrap().token_balance, 60);
    store::transfer_tokens(&mut s, &v, &u, 40).unwrap();
    assert_eq!(store::get_user(&s, &u).unwrap().token_balance, 100);
    assert_eq!(store::get_user(&s, &v).unwrap().token_balance, 0);
}

#[test]
fn search_uses_all_filters() {
    let a = who(1);
    let mut s = Store::new();
    store::add_authority(&mut s, Authority::fresh(a.duplicate()));
    let u = who(2);
    file(&mut s, &u, "Dumping WASTE", "environmental", 10, 100);
    file(&mut s, &u, "Stolen bike", "theft", 30, 200);
    file(&mut s, &u, "Waste fraud", "fraud", 60, 300);
    verify_report(&mut s, &a, 1, 2, None).unwrap();
    let q = |kw: Option<&str>, cat: Option<&str>, st: Option<ReportStatus>, from: Option<u64>, min: Option<u64>| {
        ids(&search_reports(&s, &a, kw.map(str::to_string), cat.map(str::to_string), st, from, None, min, None).unwrap())
    };
    assert_eq!(q(Some("waste"), None, None, None, None), vec![1, 3]);
    assert_eq!(q(Some("waste"), Some("FRAUD"), None, None, None), vec![3]);
    assert_eq!(q(None, None, Some(ReportStatus::Pending), None, None), vec![1, 3]);
    assert_eq!(q(None, None, Some(ReportStatus::Pending), Some(150), None), vec![3]);
    assert_eq!(q(None, Some("theft"), None, None, Some(20)), vec![2]);
    assert_eq!(q(None, None, None, None, Some(31)), vec![3]);
    assert_eq!(
        search_reports(&s, &u, None, None, None, None, None, None, None).map(|r| r.len()),
        Err(EngineError::Authorization(Denial::NotAuthority))
    );
    assert_eq!(ids(&get_reports_by_date_range(&s, &a, 150, 300).unwrap()), vec![2, 3]);
}

#[test]
fn evidence_upload_and_access() {
    let a = who(1);
    let u = who(2);
    let stranger = who(4);
    let mut s = Store::new();
    store::add_authority(&mut s, Authority::fresh(a.duplicate()));
    let r = file(&mut s, &u, "a", "fraud", 10, 1);
    assert_eq!(
        upload_evidence(&mut s, &u, 2, r, "x".to_string(), "t".to_string(), vec![]),
        Err(EngineError::Validation(Invalid::EmptyEvidence))
    );
    assert_eq!(
        upload_evidence(&mut s, &u, 2, r, "x".to_string(), "t".to_string(), vec![0; 2 * 1024 * 1024 + 1]),
        Err(EngineError::Validation(Invalid::EvidenceTooLarge))
    );
    assert_eq!(
        upload_evidence(&mut s, &stranger, 2, r, "x".to_string(), "t".to_string(), vec![1]),
        Err(EngineError::Authorization(Denial::NotOwner))
    );
    assert_eq!(
        upload_evidence(&mut s, &u, 2, 7, "x".to_string(), "t".to_string(), vec![1]),
        Err(EngineError::NotFound(Missing::Report))
    );
    let e = upload_evidence(&mut s, &u, 3, r, " photo.png ".to_string(), "image/png".to_string(), vec![1, 2, 3]).unwrap();
    assert_eq!(e, 1);
    let rep = store::get_report(&s, r).unwrap();
    assert_eq!(rep.evidence_files, vec![1]);
    assert_eq!(rep.evidence_count, 1);
    let got = get_evidence(&s, &u, e).unwrap();
    assert_eq!(got.name, "photo.png");
    assert_eq!(got.data, vec![1, 2, 3]);
    assert!(get_evidence(&s, &a, e).is_some());
    assert!(get_evidence(&s, &stranger, e).is_none());
    assert!(get_evidence(&s, &u, 2).is_none());
    assert_eq!(get_report_evidence(&s, &u, r).len(), 1);
    assert_eq!(get_report_evidence(&s, &stranger, r).len(), 0);
    store::set_evidence_ipfs_cid(&mut s, e, "bafy".to_string()).unwrap();
    assert_eq!(store::get_evidence_file(&s, e).unwrap().ipfs_cid, Some("bafy".to_string()));
    assert_eq!(store::set_evidence_ipfs_cid(&mut s, 5, "x".to_string()), Err(EngineError::NotFound(Missing::Evidence)));
    let f = EvidenceFile { id: 1, name: "n".to_string(), file_type: "t".to_string(), data: vec![], upload_date: 0, ipfs_cid: None };
    assert_eq!(store::update_evidence_file(&mut s, EvidenceFile { id: 8, ..f }), Err(EngineError::NotFound(Missing::Evidence)));
}

#[test]
fn messages_and_visibility() {
    let a = who(1);
    let u = who(2);
    let other = who(5);
    let mut s = Store::new();
    store::add_authority(&mut s, Authority::fresh(a.duplicate()));
    let r = file(&mut s, &u, "a", "fraud", 10, 1);
    assert_eq!(send_message_as_authority(&mut s, &a, 2, r, "  ".to_string()), Err(EngineError::Validation(Invalid::EmptyMessage)));
    assert_eq!(
        send_message_as_authority(&mut s, &a, 2, r, "z".repeat(2001)),
        Err(EngineError::Validation(Invalid::MessageTooLong))
    );
    send_message_as_authority(&mut s, &a, 2, r, " please add photos ".to_string()).unwrap();
    assert_eq!(send_message_as_reporter(&mut s, &other, 3, r, "hi".to_string()), Err(EngineError::Authorization(Denial::NotOwner)));
    send_message_as_reporter(&mut s, &u, 3, r, "sent".to_string()).unwrap();
    let msgs = whispr_backend::handlers::get_messages(&s, &u, r);
    let texts: Vec<&str> = msgs.iter().map(|m| m.content.as_str()).collect();
    assert_eq!(texts[1..].to_vec(), vec!["please add photos", "sent"]);
    assert!(whispr_backend::handlers::get_messages(&s, &other, r).is_empty());
    assert_eq!(get_report(&s, &other, r).len(), 0);
    assert_eq!(get_report(&s, &u, r).len(), 1);
    assert_eq!(get_report(&s, &a, r).len(), 1);
}

#[test]
fn authority_registry_rules() {
    let a = who(1);
    let b = who(6);
    let mut s = Store::new();
    store::add_authority(&mut s, Authority::fresh(a.duplicate()));
    assert_eq!(add_new_authority(&mut s, &b, a.duplicate()), Err(EngineError::Authorization(Denial::NotAuthority)));
    add_new_authority(&mut s, &a, b.duplicate()).unwrap();
    assert_eq!(add_new_authority(&mut s, &a, b.duplicate()), Err(EngineError::Validation(Invalid::AlreadyAuthority)));
    assert_eq!(remove_authority(&mut s, &a, &a), Err(EngineError::Validation(Invalid::SelfRemoval)));
    assert_eq!(remove_authority(&mut s, &a, &who(8)), Err(EngineError::Validation(Invalid::NotAnAuthority)));
    remove_authority(&mut s, &b, &a).unwrap();
    assert!(!store::is_authority(&s, &a));
    assert!(store::is_authority(&s, &b));
    let (yes, n, keys) = store::is_authority_debug(&s, &b);
    assert!(yes);
    assert_eq!(n, 1);
    assert!(keys[0].same(&b));
    assert_eq!(
        configure_ipfs_credentials(&mut s, &b, "k".to_string(), " ".to_string(), "j".to_string()),
        Err(EngineError::Validation(Invalid::EmptyCredentials))
    );
    configure_ipfs_credentials(&mut s, &b, " key ".to_string(), "sec".to_string(), "jwt".to_string()).unwrap();
    assert_eq!(store::get_ipfs_config(&s).unwrap().api_key, "key");
}

#[test]
fn startup_registers_distinguished_authority() {
    let mut s = Store::new();
    init(&mut s);
    assert_eq!(s.authorities.len(), 1);
    let cfg = store::get_ipfs_config(&s).unwrap();
    assert_eq!(cfg.jwt, "CONFIGURE_VIA_API");
    init(&mut s);
    assert_eq!(s.authorities.len(), 1);
    let boss = s.authorities[0].id.duplicate();
    assert_ne!(boss.bytes, vec![4u8]);
    let extra = who(1);
    store::add_authority(&mut s, Authority::fresh(extra.duplicate()));
    assert_eq!(cleanup_unauthorized_authorities(&mut s, &who(3)), Err(EngineError::Authorization(Denial::NotAuthority)));
    assert_eq!(cleanup_unauthorized_authorities(&mut s, &extra), Ok(1));
    assert_eq!(s.authorities.len(), 1);
    assert!(s.authorities[0].id.same(&boss));
}

#[test]
fn system_initialises_once() {
    let mut s = Store::new();
    let u = who(2);
    assert_eq!(initialize_system(&mut s, &Identity::anonymous()), Err(EngineError::Authorization(Denial::Anonymous)));
    initialize_system(&mut s, &u).unwrap();
    assert_eq!(s.authorities.len(), 2);
    assert_eq!(initialize_system(&mut s, &u), Err(EngineError::Validation(Invalid::AlreadyInitialized)));
    assert_eq!(add_tokens_to_user(&mut s, &who(3), &u, 5), Err(EngineError::Authorization(Denial::NotAuthority)));
    add_tokens_to_user(&mut s, &u, &who(3), 5).unwrap();
    assert_eq!(store::get_user(&s, &who(3)).unwrap().token_balance, 5);
}

#[test]
fn snapshots_hash_and_encode() {
    let id = Identity::new(vec![]);
    assert_eq!(hash_principal(&id), "e3b0c44298fc1c149afbf4c8996fb92427ae41e4649b934ca495991b7852b855");
    let other = Identity::new(vec![1, 2, 3]);
    let h = hash_principal(&other);
    assert_eq!(h.len(), 64);
    assert_ne!(h, hash_principal(&id));
    let f = EvidenceFile { id: 1, name: "n".to_string(), file_type: "text/plain".to_string(), data: b"hello".to_vec(), upload_date: 9, ipfs_cid: None };
    let snap = EvidenceSnapshot::new(4, &f);
    assert_eq!(snap.base64_data, "aGVsbG8=");
    assert_eq!(snap.report_id, 4);
    let mut s = Store::new();
    let r = file(&mut s, &other, "t", "fraud", 10, 3);
    let rep = store::get_report(&s, r).unwrap();
    let rs = ReportSnapshot::from_report(&rep);
    assert_eq!(rs.submitter_hash, h);
    assert_eq!(rs.category, "fraud");
    assert_eq!(report_pin_name(12), "report-12");
    assert_eq!(evidence_pin_name(3, &"a.png".to_string()), "report-3-evidence-a.png");
    assert!(is_success_status(200));
    assert!(is_success_status(299));
    assert!(!is_success_status(300));
    assert!(!is_success_status(199));
    store::set_report_ipfs_metadata(&mut s, r, "cid".to_string(), 11).unwrap();
    let rep = store::get_report(&s, r).unwrap();
    assert_eq!(rep.ipfs_cid, Some("cid".to_string()));
    assert_eq!(rep.ipfs_pinned_at, Some(11));
    assert_eq!(store::set_report_ipfs_metadata(&mut s, 40, "c".to_string(), 1), Err(EngineError::NotFound(Missing::Report)));
}

#[test]
fn records_restore_into_a_working_store() {
    let a = who(1);
    let u = who(2);
    let mut s = Store::new();
    store::add_authority(&mut s, Authority::fresh(a.duplicate()));
    file(&mut s, &u, "a", "fraud", 10, 1);
    file(&mut s, &u, "b", "theft", 10, 2);
    verify_report(&mut s, &a, 3, 1, None).unwrap();
    let back = store::from_records(
        s.reports, s.users, s.authorities, s.messages, s.evidence_files, s.ipfs_config, s.stats,
    )
    .unwrap();
    assert_eq!(ids(&store::get_reports_by_category(&back, "theft")), vec![2]);
    assert_eq!(ids(&store::get_reports_by_status(&back, ReportStatus::Approved)), vec![1]);
    let mut broken = store::get_report(&back, 2).unwrap();
    broken.id = 5;
    assert!(store::from_records(vec![broken], vec![], vec![], vec![], vec![], None, back.stats).is_none());
    let dup = vec![Authority::fresh(a.duplicate()), Authority::fresh(a.duplicate())];
    assert!(store::from_records(vec![], vec![], dup, vec![], vec![], None, back.stats).is_none());
}
