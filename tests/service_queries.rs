use whispr_backend::handlers::{AUTHORIZED_PRINCIPAL, init, submit_report, verify_report};
use whispr_backend::service::{
    MONTH_NS, category_breakdown, get_reports_paginated, monthly_submissions,
    register_as_authority, total_staked_amount,
};
use whispr_backend::store::{self, Store};
use whispr_backend::types::{Authority, Denial, EngineError, Identity};

fn person(b: u8) -> Identity {
    Identity::new(vec![b, 7, 7])
}

fn lodge(s: &mut Store, u: &Identity, category: &str, stake: u64, at: u64) -> u64 {
    submit_report(s, u, at, "t".to_string(), "d".to_string(), category.to_string(), None, None, stake, 0)
        .unwrap()
}

#[test]
fn pages_come_newest_first() {
    let a = person(1);
    let u = person(2);
    let mut s = Store::new();
    store::add_authority(&mut s, Authority::fresh(a.duplicate()));
    lodge(&mut s, &u, "fraud", 5, 30);
    lodge(&mut s, &u, "fraud", 5, 10);
    lodge(&mut s, &u, "theft", 5, 50);
    lodge(&mut s, &u, "theft", 5, 20);
    let (first, total) = get_reports_paginated(&s, &a, 0, 3).unwrap();
    assert_eq!(total, 4);
    assert_eq!(first.iter().map(|r| r.id).collect::<Vec<_>>(), vec![3, 1, 4]);
    let (second, _) = get_reports_paginated(&s, &a, 1, 3).unwrap();
    assert_eq!(second.iter().map(|r| r.id).collect::<Vec<_>>(), vec![2]);
    assert!(get_reports_paginated(&s, &a, 2, 3).unwrap().0.is_empty());
    assert!(get_reports_paginated(&s, &a, u64::MAX, 2).unwrap().0.is_empty());
    assert_eq!(
        get_reports_paginated(&s, &u, 0, 3).map(|p| p.1),
        Err(EngineError::Authorization(Denial::NotAuthority))
    );
}

#[test]
fn analytics_counts() {
    let a = person(1);
    let u = person(2);
    let mut s = Store::new();
    store::add_authority(&mut s, Authority::fresh(a.duplicate()));
    let now = 13 * MONTH_NS;
    lodge(&mut s, &u, "fraud", 10, now);
    lodge(&mut s, &u, "Fraud", 20, now - MONTH_NS - 1);
    lodge(&mut s, &u, "theft", 30, now - 2 * MONTH_NS);
    lodge(&mut s, &u, "theft", 40, 0);
    verify_report(&mut s, &a, now, 1, None).unwrap();
    let months = monthly_submissions(&s, now);
    assert_eq!(months.len(), 12);
    assert_eq!(months[0], 1);
    assert_eq!(months[1], 1);
    assert_eq!(months[2], 1);
    assert_eq!(months.iter().sum::<u64>(), 3);
    assert_eq!(total_staked_amount(&s), 100);
    let cats = category_breakdown(&s);
    assert_eq!(cats.len(), 2);
    assert_eq!(cats[0].category, "fraud");
    assert_eq!((cats[0].pending, cats[0].approved, cats[0].rejected), (1, 1, 0));
    assert_eq!(cats[1].category, "theft");
    assert_eq!((cats[1].pending, cats[1].approved, cats[1].rejected), (2, 0, 0));
}

#[test]
fn distinguished_principal_parses_to_its_bytes() {
    let expected = candid::Principal::from_text(AUTHORIZED_PRINCIPAL).unwrap();
    let mut s = Store::new();
    init(&mut s);
    assert_eq!(s.authorities[0].id.bytes, expected.as_slice().to_vec());
    let boss = Identity::new(expected.as_slice().to_vec());
    let mut fresh = Store::new();
    assert_eq!(register_as_authority(&mut fresh, &boss), Ok(true));
    assert_eq!(register_as_authority(&mut fresh, &boss), Ok(false));
    assert_eq!(
        register_as_authority(&mut fresh, &person(3)),
        Err(EngineError::Authorization(Denial::NotAuthority))
    );
}
