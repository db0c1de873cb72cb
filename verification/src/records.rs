//! Domain record types, their mathematical views, and the pure derivation
//! functions for pension age, worked hours and daily wage.

use vstd::prelude::*;

verus! {

/// Milliseconds in one hour; `total_hours` is stored scaled by this constant.
pub const MS_PER_HOUR: u64 = 3_600_000;

/// Milliseconds in one calendar day; day numbers are `timestamp / MS_PER_DAY`.
pub const MS_PER_DAY: u64 = 86_400_000;

/// A verified-document attachment kept with an employee record.
#[derive(Clone, Debug, PartialEq, Eq)]
pub struct PdfFile {
    pub id: u64,
    pub content: Vec<u8>,
    pub is_verified: bool,
    pub created_at: u64,
    pub updated_at: Option<u64>,
}

/// Mathematical view of a [`PdfFile`].
#[verifier::ext_equal]
pub struct PdfFileV {
    pub id: u64,
    pub content: Seq<u8>,
    pub is_verified: bool,
    pub created_at: u64,
    pub updated_at: Option<u64>,
}

impl View for PdfFile {
    type V = PdfFileV;

    open spec fn view(&self) -> PdfFileV {
        PdfFileV {
            id: self.id,
            content: self.content@,
            is_verified: self.is_verified,
            created_at: self.created_at,
            updated_at: self.updated_at,
        }
    }
}

/// An employee record. `name` and `wallet_address` hold UTF-8 text as bytes.
#[derive(Clone, Debug, PartialEq, Eq)]
pub struct Employee {
    pub nip: u64,
    pub name: Vec<u8>,
    pub age: u32,
    pub pension_age: u32,
    pub wage_per_hour: u64,
    pub sk_file: Option<PdfFile>,
    pub wallet_address: Vec<u8>,
    pub created_at: u64,
    pub updated_at: Option<u64>,
}

/// Mathematical view of an [`Employee`].
#[verifier::ext_equal]
pub struct EmployeeV {
    pub nip: u64,
    pub name: Seq<u8>,
    pub age: u32,
    pub pension_age: u32,
    pub wage_per_hour: u64,
    pub sk_file: Option<PdfFileV>,
    pub wallet_address: Seq<u8>,
    pub created_at: u64,
    pub updated_at: Option<u64>,
}

impl View for Employee {
    type V = EmployeeV;

    open spec fn view(&self) -> EmployeeV {
        EmployeeV {
            nip: self.nip,
            name: self.name@,
            age: self.age,
            pension_age: self.pension_age,
            wage_per_hour: self.wage_per_hour,
            sk_file: match self.sk_file {
                Some(f) => Some(f@),
                None => None,
            },
            wallet_address: self.wallet_address@,
            created_at: self.created_at,
            updated_at: self.updated_at,
        }
    }
}

/// One day of attendance. All fields are plain integers, so the record is its
/// own mathematical view.
#[derive(Clone, Copy, Debug, PartialEq, Eq, Structural)]
pub struct Attendance {
    pub check_in: u64,
    pub check_out: u64,
    pub total_hours: u64,
    pub daily_wage: u128,
}

/// The state of a payroll-approval request.
#[derive(Clone, Copy, Debug, PartialEq, Eq, Structural)]
pub enum ApprovalStatus {
    Pending,
    Approved,
    Rejected,
}

/// A payroll-approval request for one employee on one day.
#[derive(Clone, Debug, PartialEq, Eq)]
pub struct PayrollApproval {
    pub employee_nip: u64,
    pub attendance_date: u64,
    pub wage_amount: u128,
    pub status: ApprovalStatus,
    pub manager_wallet: Vec<u8>,
}

/// Mathematical view of a [`PayrollApproval`].
#[verifier::ext_equal]
pub struct PayrollApprovalV {
    pub employee_nip: u64,
    pub attendance_date: u64,
    pub wage_amount: u128,
    pub status: ApprovalStatus,
    pub manager_wallet: Seq<u8>,
}

impl View for PayrollApproval {
    type V = PayrollApprovalV;

    open spec fn view(&self) -> PayrollApprovalV {
        PayrollApprovalV {
            employee_nip: self.employee_nip,
            attendance_date: self.attendance_date,
            wage_amount: self.wage_amount,
            status: self.status,
            manager_wallet: self.manager_wallet@,
        }
    }
}

/// The recoverable errors an operation can report.
#[derive(Clone, Copy, Debug, PartialEq, Eq, Structural)]
pub enum Error {
    NotFound,
    InvalidWallet,
    InvalidInput,
}

/// Worked time between the two timestamps: zero when `check_out <= check_in`,
/// otherwise the difference (hours scaled by `MS_PER_HOUR`).
pub open spec fn work_hours(check_in: u64, check_out: u64) -> u64 {
    if check_out <= check_in {
        0
    } else {
        (check_out - check_in) as u64
    }
}

/// Pension age is the years left until sixty.
pub fn calculate_pension_age(age: u32) -> (r: u32)
    requires
        age < 60,
    ensures
        r == 60 - age,
{
    60 - age
}

/// Total working hours (scaled by `MS_PER_HOUR`) between check-in and
/// check-out; zero signals an invalid range.
pub fn calculate_work_hours(check_in: u64, check_out: u64) -> (r: u64)
    ensures
        r == work_hours(check_in, check_out),
        r > 0 <==> check_out > check_in,
{
    if check_out <= check_in {
        return 0;
    }
    check_out - check_in
}

/// Daily wage as the exact product of scaled hours and hourly wage.
pub fn calculate_daily_wage(total_hours: u64, wage_per_hour: u64) -> (r: u128)
    ensures
        r == total_hours * wage_per_hour,
{
    proof {
        assert((total_hours as int) * (wage_per_hour as int) <= 0xFFFF_FFFF_FFFF_FFFFu64
            * 0xFFFF_FFFF_FFFF_FFFFu64) by (nonlinear_arith)
            requires
                total_hours <= 0xFFFF_FFFF_FFFF_FFFFu64,
                wage_per_hour <= 0xFFFF_FFFF_FFFF_FFFFu64,
        ;
    }
    (total_hours as u128) * (wage_per_hour as u128)
}

} // verus!
