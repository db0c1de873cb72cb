use payroll::records::{ApprovalStatus, Attendance, Employee, PayrollApproval, PdfFile};

fn sample_employee() -> Employee {
    Employee {
        nip: 7,
        name: b"Alice".to_vec(),
        age: 30,
        pension_age: 30,
        wage_per_hour: 10_000,
        sk_file: None,
        wallet_address: b"aaaaa-aa".to_vec(),
        created_at: 123_456,
        updated_at: None,
    }
}

#[test]
fn employee_round_trip() {
    let e = sample_employee();
    let bytes = e.to_bytes();
    let back = Employee::from_bytes(&bytes).expect("canonical bytes decode");
    assert_eq!(back, e);
}

#[test]
fn employee_with_attachment_round_trip() {
    let mut e = sample_employee();
    e.sk_file = Some(PdfFile {
        id: 3,
        content: vec![1, 2, 3, 4, 5],
        is_verified: true,
        created_at: 99,
        updated_at: Some(101),
    });
    e.updated_at = Some(200);
    let bytes = e.to_bytes();
    let back = Employee::from_bytes(&bytes).expect("canonical bytes decode");
    assert_eq!(back, e);
}

#[test]
fn attendance_round_trip() {
    let a = Attendance {
        check_in: 5,
        check_out: 3_600_005,
        total_hours: 3_600_000,
        daily_wage: 36_000_000_000,
    };
    let bytes = a.to_bytes();
    assert_eq!(bytes.len(), 40);
    let back = Attendance::from_bytes(&bytes).expect("canonical bytes decode");
    assert_eq!(back, a);
}

#[test]
fn approval_round_trip() {
    let p = PayrollApproval {
        employee_nip: 0,
        attendance_date: 19_000,
        wage_amount: 36_000_000_000,
        status: ApprovalStatus::Rejected,
        manager_wallet: b"2vxsx-fae".to_vec(),
    };
    let bytes = p.to_bytes();
    let back = PayrollApproval::from_bytes(&bytes).expect("canonical bytes decode");
    assert_eq!(back, p);
}

#[test]
fn decoded_bytes_reencode_exactly() {
    let e = sample_employee();
    let bytes = e.to_bytes();
    let back = Employee::from_bytes(&bytes).unwrap();
    assert_eq!(back.to_bytes(), bytes);

    let a = Attendance { check_in: 1, check_out: 2, total_hours: 1, daily_wage: 9 };
    let bytes = a.to_bytes();
    assert_eq!(Attendance::from_bytes(&bytes).unwrap().to_bytes(), bytes);
}

#[test]
fn decode_rejects_junk_and_trailing_bytes() {
    assert!(Employee::from_bytes(&b"garbage".to_vec()).is_none());
    assert!(Attendance::from_bytes(&vec![]).is_none());
    assert!(PayrollApproval::from_bytes(&vec![0u8; 3]).is_none());

    let mut bytes = sample_employee().to_bytes();
    bytes.push(0);
    assert!(Employee::from_bytes(&bytes).is_none());

    let mut short = Attendance { check_in: 1, check_out: 2, total_hours: 1, daily_wage: 9 }
        .to_bytes();
    short.pop();
    assert!(Attendance::from_bytes(&short).is_none());
}

#[test]
fn decode_rejects_non_canonical_tags() {
    // flip the option tag of `updated_at` (the last byte of the encoding) to
    // a value that is neither absent nor present
    let mut bytes = sample_employee().to_bytes();
    let last = bytes.len() - 1;
    bytes[last] = 2;
    assert!(Employee::from_bytes(&bytes).is_none());

    // a status tag beyond the three variants
    let p = PayrollApproval {
        employee_nip: 1,
        attendance_date: 2,
        wage_amount: 3,
        status: ApprovalStatus::Pending,
        manager_wallet: b"m".to_vec(),
    };
    let mut bytes = p.to_bytes();
    bytes[32] = 9;
    assert!(PayrollApproval::from_bytes(&bytes).is_none());
}
