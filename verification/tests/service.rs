use payroll::records::{ApprovalStatus, Error, MS_PER_DAY, MS_PER_HOUR};
use payroll::service::PayrollService;

const MANAGER_WALLET: &[u8] = b"2vxsx-fae";
const WORKER_WALLET: &[u8] = b"aaaaa-aa";

fn add_alice(s: &mut PayrollService, now: u64) -> payroll::records::Employee {
    s.add_employee(b"Alice".to_vec(), 30, 10_000, WORKER_WALLET.to_vec(), now)
        .expect("valid payload")
}

#[test]
fn ids_strictly_increase_from_zero() {
    let mut s = PayrollService::new();
    let e0 = s
        .add_employee(b"Alice".to_vec(), 30, 10_000, WORKER_WALLET.to_vec(), 1)
        .unwrap();
    let e1 = s
        .add_employee(b"Bob".to_vec(), 40, 7_500, WORKER_WALLET.to_vec(), 2)
        .unwrap();
    let e2 = s
        .add_employee(b"Cleo".to_vec(), 25, 12_000, WORKER_WALLET.to_vec(), 3)
        .unwrap();
    assert_eq!(e0.nip, 0);
    assert_eq!(e1.nip, 1);
    assert_eq!(e2.nip, 2);
    assert!(e0.nip < e1.nip && e1.nip < e2.nip);
}

#[test]
fn get_after_add_returns_equal_record() {
    let mut s = PayrollService::new();
    let added = add_alice(&mut s, 1_000);
    let got = s.get_employee(added.nip).expect("stored");
    assert_eq!(got, added);
    assert_eq!(got.pension_age, 60 - got.age);
    assert_eq!(got.pension_age, 30);
    assert_eq!(got.created_at, 1_000);
    assert!(got.sk_file.is_none());
    assert!(got.updated_at.is_none());
}

#[test]
fn get_unknown_employee_not_found() {
    let s = PayrollService::new();
    assert!(matches!(s.get_employee(7), Err(Error::NotFound)));
}

#[test]
fn add_rejects_invalid_payload() {
    let mut s = PayrollService::new();
    let w = WORKER_WALLET.to_vec();
    assert!(matches!(
        s.add_employee(b"".to_vec(), 30, 10, w.clone(), 0),
        Err(Error::InvalidInput)
    ));
    assert!(matches!(
        s.add_employee(b"  \t\n".to_vec(), 30, 10, w.clone(), 0),
        Err(Error::InvalidInput)
    ));
    assert!(matches!(
        s.add_employee(b"Ann".to_vec(), 0, 10, w.clone(), 0),
        Err(Error::InvalidInput)
    ));
    assert!(matches!(
        s.add_employee(b"Ann".to_vec(), 60, 10, w.clone(), 0),
        Err(Error::InvalidInput)
    ));
    assert!(matches!(
        s.add_employee(b"Ann".to_vec(), 30, 0, w, 0),
        Err(Error::InvalidInput)
    ));
    // a rejected payload mints no id
    let e = add_alice(&mut s, 5);
    assert_eq!(e.nip, 0);
}

#[test]
fn attendance_unknown_employee_not_found() {
    let mut s = PayrollService::new();
    assert!(matches!(
        s.record_attendance(3, 0, 10, 0),
        Err(Error::NotFound)
    ));
}

#[test]
fn attendance_rejects_empty_range() {
    let mut s = PayrollService::new();
    add_alice(&mut s, 0);
    assert!(matches!(
        s.record_attendance(0, 500, 500, 1_000),
        Err(Error::InvalidInput)
    ));
    assert!(matches!(
        s.record_attendance(0, 500, 100, 1_000),
        Err(Error::InvalidInput)
    ));
}

#[test]
fn attendance_computes_hours_and_wage() {
    let mut s = PayrollService::new();
    add_alice(&mut s, 0);
    let a = s.record_attendance(0, 100, 100 + 2 * MS_PER_HOUR, 1_000).unwrap();
    assert_eq!(a.check_in, 100);
    assert_eq!(a.check_out, 100 + 2 * MS_PER_HOUR);
    assert_eq!(a.total_hours, 2 * MS_PER_HOUR);
    assert!(a.total_hours > 0);
    assert_eq!(a.daily_wage, (2 * MS_PER_HOUR) as u128 * 10_000);
}

#[test]
fn second_attendance_same_day_overwrites() {
    let mut s = PayrollService::new();
    add_alice(&mut s, 0);
    let now = 3 * MS_PER_DAY + 17;
    s.record_attendance(0, 0, MS_PER_HOUR, now).unwrap();
    let second = s.record_attendance(0, 0, 5 * MS_PER_HOUR, now).unwrap();
    // the approval created for that day carries the second record's wage
    let p = s
        .request_approval(0, MANAGER_WALLET.to_vec(), now)
        .unwrap();
    assert_eq!(p.wage_amount, second.daily_wage);
    assert_eq!(p.wage_amount, (5 * MS_PER_HOUR) as u128 * 10_000);
}

#[test]
fn approval_requires_attendance() {
    let mut s = PayrollService::new();
    add_alice(&mut s, 0);
    let now = 9 * MS_PER_DAY + 1;
    assert!(matches!(
        s.request_approval(0, MANAGER_WALLET.to_vec(), now),
        Err(Error::NotFound)
    ));
    let a = s.record_attendance(0, 10, 10 + MS_PER_HOUR, now).unwrap();
    let p = s
        .request_approval(0, MANAGER_WALLET.to_vec(), now)
        .unwrap();
    assert!(matches!(p.status, ApprovalStatus::Pending));
    assert_eq!(p.wage_amount, a.daily_wage);
    assert_eq!(p.employee_nip, 0);
    assert_eq!(p.attendance_date, now / MS_PER_DAY);
    assert_eq!(p.manager_wallet, MANAGER_WALLET.to_vec());
}

#[test]
fn approval_rejects_malformed_wallet() {
    let mut s = PayrollService::new();
    add_alice(&mut s, 0);
    let now = 100;
    s.record_attendance(0, 10, 10 + MS_PER_HOUR, now).unwrap();
    assert!(matches!(
        s.request_approval(0, b"not a wallet".to_vec(), now),
        Err(Error::InvalidWallet)
    ));
    assert!(matches!(
        s.request_approval(0, vec![0xff, 0xfe], now),
        Err(Error::InvalidWallet)
    ));
}

#[test]
fn approve_unknown_pair_not_found() {
    let mut s = PayrollService::new();
    assert!(matches!(s.approve_payroll(0, 0, true), Err(Error::NotFound)));
}

#[test]
fn approve_flips_status_and_persists() {
    let mut s = PayrollService::new();
    add_alice(&mut s, 0);
    let now = 2 * MS_PER_DAY + 5;
    let day = now / MS_PER_DAY;
    s.record_attendance(0, 0, MS_PER_HOUR, now).unwrap();
    let pending = s
        .request_approval(0, MANAGER_WALLET.to_vec(), now)
        .unwrap();
    assert!(matches!(pending.status, ApprovalStatus::Pending));
    let approved = s.approve_payroll(0, day, true).unwrap();
    assert!(matches!(approved.status, ApprovalStatus::Approved));
    assert_eq!(approved.wage_amount, pending.wage_amount);
    // a later call reads the stored record back: the flip persisted, and a
    // settled record may still be flipped the other way
    let rejected = s.approve_payroll(0, day, false).unwrap();
    assert!(matches!(rejected.status, ApprovalStatus::Rejected));
    assert_eq!(rejected.wage_amount, pending.wage_amount);
    assert_eq!(rejected.manager_wallet, pending.manager_wallet);
}

#[test]
fn example_scenario() {
    let mut s = PayrollService::new();
    // wage 10.0 in minor units per hour at the milli scale
    let e = s
        .add_employee(b"Alice".to_vec(), 30, 10_000, WORKER_WALLET.to_vec(), 0)
        .unwrap();
    assert_eq!(e.nip, 0);
    assert_eq!(e.pension_age, 30);
    let t0 = 0u64;
    let a = s.record_attendance(0, t0, t0 + 3_600_000, t0 + 3_600_000).unwrap();
    // one worked hour, wage 10.0
    assert_eq!(a.total_hours as f64 / MS_PER_HOUR as f64, 1.0);
    assert_eq!(
        a.daily_wage as f64 / (MS_PER_HOUR as f64 * 1_000.0),
        10.0
    );
    let p = s
        .request_approval(0, MANAGER_WALLET.to_vec(), t0 + 3_600_000)
        .unwrap();
    assert!(matches!(p.status, ApprovalStatus::Pending));
    assert_eq!(p.wage_amount, a.daily_wage);
    let today = (t0 + 3_600_000) / MS_PER_DAY;
    let done = s.approve_payroll(0, today, true).unwrap();
    assert!(matches!(done.status, ApprovalStatus::Approved));
}
