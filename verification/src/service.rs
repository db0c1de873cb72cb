//! The payroll service: employee registration, attendance recording and the
//! approval workflow, over the durable stores. Every stored byte string is
//! the canonical encoding of a well-formed record; that invariant makes every
//! decode on a read path total.

use vstd::prelude::*;

use crate::codec::{
    enc_approval, enc_attendance, enc_employee, lemma_enc_approval_injective,
    lemma_enc_attendance_injective, lemma_enc_employee_injective,
};
use crate::records::{
    calculate_daily_wage, calculate_pension_age, calculate_work_hours, ApprovalStatus, Attendance,
    Employee, EmployeeV, Error, PayrollApproval, PayrollApprovalV, MS_PER_DAY,
};
use crate::store::{
    approval_table, attendance_table, counter_of, employee_table, StableStores,
};
use crate::wallet::{principal_ok, wallet_ok};

verus! {

/// The packed table key for employee `nip` on day `day`.
pub open spec fn day_key(nip: u64, day: u64) -> u128 {
    ((nip as u128) << 64) | (day as u128)
}

/// Computes the packed table key for employee `nip` on day `day`.
pub fn make_day_key(nip: u64, day: u64) -> (k: u128)
    ensures
        k == day_key(nip, day),
{
    ((nip as u128) << 64) | (day as u128)
}

/// A byte is ASCII whitespace.
pub open spec fn ascii_space(c: u8) -> bool {
    c == 32 || (9 <= c && c <= 13)
}

/// The byte string is empty or all ASCII whitespace.
pub open spec fn blank(s: Seq<u8>) -> bool {
    forall|i: int| 0 <= i < s.len() ==> ascii_space(#[trigger] s[i])
}

/// A payload the add operation accepts: a non-blank name, an age strictly
/// between zero and sixty, and a positive wage.
pub open spec fn valid_employee_payload(name: Seq<u8>, age: u32, wage_per_hour: u64) -> bool {
    &&& !blank(name)
    &&& 0 < age < 60
    &&& wage_per_hour > 0
}

/// Whether the byte string is empty or all ASCII whitespace.
pub fn is_blank(s: &Vec<u8>) -> (r: bool)
    ensures
        r == blank(s@),
{
    let mut i: usize = 0;
    while i < s.len()
        invariant
            i <= s@.len(),
            forall|t: int| 0 <= t < i ==> ascii_space(#[trigger] s@[t]),
        decreases s@.len() - i,
    {
        let c = s[i];
        if !(c == 32 || (c >= 9 && c <= 13)) {
            proof {
                assert(!ascii_space(s@[i as int]));
            }
            return false;
        }
        i = i + 1;
    }
    true
}

/// Every entry of the employee table is the canonical encoding of a
/// well-formed record keyed by its own id.
pub open spec fn emp_table_wf(m: Map<u64, Seq<u8>>) -> bool {
    forall|j: u64| #[trigger]
        m.contains_key(j) ==> exists|e: EmployeeV|
            e.wf() && e.nip == j && m[j] == #[trigger] enc_employee(e)
}

/// Every entry of the attendance table is the canonical encoding of a record.
pub open spec fn att_table_wf(m: Map<u128, Seq<u8>>) -> bool {
    forall|k: u128| #[trigger]
        m.contains_key(k) ==> exists|a: Attendance| m[k] == #[trigger] enc_attendance(a)
}

/// Every entry of the approval table is the canonical encoding of a
/// well-formed record.
pub open spec fn app_table_wf(m: Map<u128, Seq<u8>>) -> bool {
    forall|k: u128| #[trigger]
        m.contains_key(k) ==> exists|p: PayrollApprovalV|
            p.wf() && m[k] == #[trigger] enc_approval(p)
}

proof fn emp_insert_preserves_wf(m0: Map<u64, Seq<u8>>, m1: Map<u64, Seq<u8>>, ev: EmployeeV)
    requires
        emp_table_wf(m0),
        ev.wf(),
        m1 == m0.insert(ev.nip, enc_employee(ev)),
    ensures
        emp_table_wf(m1),
{
    assert forall|j: u64| #[trigger] m1.contains_key(j) implies exists|e: EmployeeV|
        e.wf() && e.nip == j && m1[j] == #[trigger] enc_employee(e) by {
        if j == ev.nip {
            assert(ev.wf() && ev.nip == j && m1[j] == enc_employee(ev));
        } else {
            assert(m0.contains_key(j));
        }
    }
}

proof fn att_insert_preserves_wf(m0: Map<u128, Seq<u8>>, m1: Map<u128, Seq<u8>>, k: u128, a: Attendance)
    requires
        att_table_wf(m0),
        m1 == m0.insert(k, enc_attendance(a)),
    ensures
        att_table_wf(m1),
{
    assert forall|j: u128| #[trigger] m1.contains_key(j) implies exists|x: Attendance|
        m1[j] == #[trigger] enc_attendance(x) by {
        if j == k {
            assert(m1[j] == enc_attendance(a));
        } else {
            assert(m0.contains_key(j));
        }
    }
}

proof fn app_insert_preserves_wf(
    m0: Map<u128, Seq<u8>>,
    m1: Map<u128, Seq<u8>>,
    k: u128,
    p: PayrollApprovalV,
)
    requires
        app_table_wf(m0),
        p.wf(),
        m1 == m0.insert(k, enc_approval(p)),
    ensures
        app_table_wf(m1),
{
    assert forall|j: u128| #[trigger] m1.contains_key(j) implies exists|x: PayrollApprovalV|
        x.wf() && m1[j] == #[trigger] enc_approval(x) by {
        if j == k {
            assert(p.wf() && m1[j] == enc_approval(p));
        } else {
            assert(m0.contains_key(j));
        }
    }
}

/// The record-keeping service over one set of durable stores.
pub struct PayrollService {
    stores: StableStores,
}

impl PayrollService {
    /// The id the next added employee will get.
    pub closed spec fn next_id(self) -> u64 {
        counter_of(self.stores)
    }

    /// The employee table, as stored bytes.
    pub closed spec fn employees(self) -> Map<u64, Seq<u8>> {
        employee_table(self.stores)
    }

    /// The attendance table, as stored bytes.
    pub closed spec fn attendance(self) -> Map<u128, Seq<u8>> {
        attendance_table(self.stores)
    }

    /// The approval table, as stored bytes.
    pub closed spec fn approvals(self) -> Map<u128, Seq<u8>> {
        approval_table(self.stores)
    }

    /// The employee record stored under `nip` (meaningful when the key is
    /// present: the encoding is one-to-one).
    pub open spec fn employee_rec(self, nip: u64) -> EmployeeV {
        choose|ev: EmployeeV| ev.wf() && self.employees()[nip] == enc_employee(ev)
    }

    /// The attendance record stored under `k`.
    pub open spec fn attendance_rec(self, k: u128) -> Attendance {
        choose|a: Attendance| self.attendance()[k] == enc_attendance(a)
    }

    /// The approval record stored under `k`.
    pub open spec fn approval_rec(self, k: u128) -> PayrollApprovalV {
        choose|p: PayrollApprovalV| p.wf() && self.approvals()[k] == enc_approval(p)
    }

    /// Every stored byte string is a canonical encoding of a well-formed
    /// record, and employee records carry their own key.
    pub open spec fn wf(self) -> bool {
        &&& emp_table_wf(self.employees())
        &&& att_table_wf(self.attendance())
        &&& app_table_wf(self.approvals())
    }

    /// The id the next added employee will get, read from the counter.
    pub fn next_id_value(&self) -> (r: u64)
        ensures
            r == self.next_id(),
    {
        self.stores.counter_get()
    }

    /// A fresh service over empty stores; ids start at zero.
    pub fn new() -> (s: PayrollService)
        ensures
            s.wf(),
            s.next_id() == 0,
            s.employees() == Map::<u64, Seq<u8>>::empty(),
            s.attendance() == Map::<u128, Seq<u8>>::empty(),
            s.approvals() == Map::<u128, Seq<u8>>::empty(),
    {
        let stores = StableStores::init();
        let s = PayrollService { stores };
        proof {
            assert(s.employees() =~= Map::<u64, Seq<u8>>::empty());
            assert(s.attendance() =~= Map::<u128, Seq<u8>>::empty());
            assert(s.approvals() =~= Map::<u128, Seq<u8>>::empty());
        }
        s
    }

    /// Registers a new employee. Rejects a blank name, a zero age, an age of
    /// sixty or more, and a zero wage as invalid input; otherwise mints the
    /// next id, derives the pension age, stamps `now` and stores the record.
    /// The length bounds keep every stored record within the declared
    /// 2048-byte encoding cap.
    pub fn add_employee(
        &mut self,
        name: Vec<u8>,
        age: u32,
        wage_per_hour: u64,
        wallet_address: Vec<u8>,
        now: u64,
    ) -> (r: Result<Employee, Error>)
        requires
            old(self).wf(),
            old(self).next_id() < u64::MAX,
            name@.len() <= 512,
            wallet_address@.len() <= 512,
        ensures
            final(self).wf(),
            r is Ok <==> valid_employee_payload(name@, age, wage_per_hour),
            r matches Err(err) ==> err == Error::InvalidInput && *final(self) == *old(self),
            r matches Ok(e) ==> ({
                &&& e@.nip == old(self).next_id()
                &&& e@.name == name@
                &&& e@.age == age
                &&& e@.pension_age == 60 - age
                &&& e@.wage_per_hour == wage_per_hour
                &&& e@.sk_file is None
                &&& e@.wallet_address == wallet_address@
                &&& e@.created_at == now
                &&& e@.updated_at is None
                &&& e@.wf()
                &&& final(self).next_id() == old(self).next_id() + 1
                &&& final(self).employees() == old(self).employees().insert(
                    e@.nip,
                    enc_employee(e@),
                )
                &&& final(self).attendance() == old(self).attendance()
                &&& final(self).approvals() == old(self).approvals()
            }),
    {
        if is_blank(&name) || age == 0 || age >= 60 || wage_per_hour == 0 {
            return Err(Error::InvalidInput);
        }
        let nip = self.stores.counter_get();
        let _replaced = self.stores.counter_set(nip + 1);
        let pension_age = calculate_pension_age(age);
        let employee = Employee {
            nip,
            name,
            age,
            pension_age,
            wage_per_hour,
            sk_file: None,
            wallet_address,
            created_at: now,
            updated_at: None,
        };
        let bytes = employee.to_bytes();
        let _prev = self.stores.employee_insert(nip, bytes);
        proof {
            emp_insert_preserves_wf(old(self).employees(), self.employees(), employee@);
        }
        Ok(employee)
    }

    /// Looks an employee up by id.
    pub fn get_employee(&self, nip: u64) -> (r: Result<Employee, Error>)
        requires
            self.wf(),
        ensures
            r is Ok <==> self.employees().contains_key(nip),
            r matches Ok(e) ==> e@.wf() && self.employees()[nip] == enc_employee(e@) && e@
                == self.employee_rec(nip) && e@.nip == nip,
            r matches Err(err) ==> err == Error::NotFound,
    {
        let bytes = match self.stores.employee_get(nip) {
            Some(b) => b,
            None => {
                return Err(Error::NotFound);
            },
        };
        match Employee::from_bytes(&bytes) {
            Some(e) => {
                proof {
                    let ev0 = choose|ev: EmployeeV|
                        ev.wf() && ev.nip == nip && self.employees()[nip] == enc_employee(ev);
                    lemma_enc_employee_injective(e@, ev0);
                    lemma_enc_employee_injective(self.employee_rec(nip), e@);
                }
                Ok(e)
            },
            None => {
                proof {
                    let ev0 = choose|ev: EmployeeV|
                        ev.wf() && ev.nip == nip && self.employees()[nip] == enc_employee(ev);
                    assert(bytes@ != enc_employee(ev0));
                    assert(false);
                }
                vstd::pervasive::unreached()
            },
        }
    }

    /// Records today's attendance for an employee: unknown ids are not found,
    /// an empty time range is invalid input, and otherwise the worked time
    /// and the exact daily wage are stored under (id, day of `now`),
    /// overwriting any earlier record for that day.
    pub fn record_attendance(&mut self, nip: u64, check_in: u64, check_out: u64, now: u64) -> (r:
        Result<Attendance, Error>)
        requires
            old(self).wf(),
        ensures
            final(self).wf(),
            !old(self).employees().contains_key(nip) ==> (r matches Err(err) && err
                == Error::NotFound) && *final(self) == *old(self),
            old(self).employees().contains_key(nip) && check_out <= check_in ==> (r matches
                Err(err) && err == Error::InvalidInput) && *final(self) == *old(self),
            r is Ok <==> old(self).employees().contains_key(nip) && check_out > check_in,
            r matches Ok(a) ==> ({
                &&& a.check_in == check_in
                &&& a.check_out == check_out
                &&& a.total_hours == check_out - check_in
                &&& a.total_hours > 0
                &&& a.daily_wage == a.total_hours * old(self).employee_rec(nip).wage_per_hour
                &&& final(self).attendance() == old(self).attendance().insert(
                    day_key(nip, now / MS_PER_DAY),
                    enc_attendance(a),
                )
                &&& final(self).employees() == old(self).employees()
                &&& final(self).approvals() == old(self).approvals()
                &&& final(self).next_id() == old(self).next_id()
            }),
    {
        let emp_bytes = match self.stores.employee_get(nip) {
            Some(b) => b,
            None => {
                return Err(Error::NotFound);
            },
        };
        let employee = match Employee::from_bytes(&emp_bytes) {
            Some(e) => e,
            None => {
                proof {
                    let ev0 = choose|ev: EmployeeV|
                        ev.wf() && ev.nip == nip && self.employees()[nip] == enc_employee(ev);
                    assert(emp_bytes@ != enc_employee(ev0));
                    assert(false);
                }
                vstd::pervasive::unreached()
            },
        };
        proof {
            assert(exists|ev: EmployeeV|
                ev.wf() && self.employees()[nip] == enc_employee(ev));
            lemma_enc_employee_injective(self.employee_rec(nip), employee@);
        }
        let total_hours = calculate_work_hours(check_in, check_out);
        if total_hours == 0 {
            return Err(Error::InvalidInput);
        }
        let daily_wage = calculate_daily_wage(total_hours, employee.wage_per_hour);
        let attendance = Attendance { check_in, check_out, total_hours, daily_wage };
        let key = make_day_key(nip, now / MS_PER_DAY);
        let bytes = attendance.to_bytes();
        let _prev = self.stores.attendance_insert(key, bytes);
        proof {
            att_insert_preserves_wf(
                old(self).attendance(),
                self.attendance(),
                key,
                attendance,
            );
        }
        Ok(attendance)
    }

    /// Requests payroll approval for an employee's attendance of the current
    /// day: a malformed manager wallet is rejected first, a missing
    /// attendance record is not found, and otherwise a fresh Pending approval
    /// carrying the attendance's daily wage is stored under (id, day of
    /// `now`), overwriting any earlier request for that day.
    pub fn request_approval(&mut self, nip: u64, manager_wallet: Vec<u8>, now: u64) -> (r: Result<
        PayrollApproval,
        Error,
    >)
        requires
            old(self).wf(),
            manager_wallet@.len() <= 512,
        ensures
            final(self).wf(),
            !principal_ok(manager_wallet@) ==> (r matches Err(err) && err == Error::InvalidWallet)
                && *final(self) == *old(self),
            principal_ok(manager_wallet@) && !old(self).attendance().contains_key(
                day_key(nip, now / MS_PER_DAY),
            ) ==> (r matches Err(err) && err == Error::NotFound) && *final(self) == *old(self),
            r is Ok <==> principal_ok(manager_wallet@) && old(self).attendance().contains_key(
                day_key(nip, now / MS_PER_DAY),
            ),
            r matches Ok(p) ==> ({
                &&& p@.employee_nip == nip
                &&& p@.attendance_date == now / MS_PER_DAY
                &&& p@.wage_amount == old(self).attendance_rec(
                    day_key(nip, now / MS_PER_DAY),
                ).daily_wage
                &&& p@.status == ApprovalStatus::Pending
                &&& p@.manager_wallet == manager_wallet@
                &&& p@.wf()
                &&& final(self).approvals() == old(self).approvals().insert(
                    day_key(nip, now / MS_PER_DAY),
                    enc_approval(p@),
                )
                &&& final(self).employees() == old(self).employees()
                &&& final(self).attendance() == old(self).attendance()
                &&& final(self).next_id() == old(self).next_id()
            }),
    {
        if !wallet_ok(&manager_wallet) {
            return Err(Error::InvalidWallet);
        }
        let day = now / MS_PER_DAY;
        let key = make_day_key(nip, day);
        let att_bytes = match self.stores.attendance_get(key) {
            Some(b) => b,
            None => {
                return Err(Error::NotFound);
            },
        };
        let attendance = match Attendance::from_bytes(&att_bytes) {
            Some(a) => a,
            None => {
                proof {
                    let a0 = choose|a: Attendance| self.attendance()[key] == enc_attendance(a);
                    assert(att_bytes@ != enc_attendance(a0));
                    assert(false);
                }
                vstd::pervasive::unreached()
            },
        };
        proof {
            assert(exists|a: Attendance| self.attendance()[key] == enc_attendance(a));
            lemma_enc_attendance_injective(self.attendance_rec(key), attendance);
        }
        let approval = PayrollApproval {
            employee_nip: nip,
            attendance_date: day,
            wage_amount: attendance.daily_wage,
            status: ApprovalStatus::Pending,
            manager_wallet,
        };
        let bytes = approval.to_bytes();
        let _prev = self.stores.approval_insert(key, bytes);
        proof {
            app_insert_preserves_wf(
                old(self).approvals(),
                self.approvals(),
                key,
                approval@,
            );
        }
        Ok(approval)
    }

    /// Settles an approval request: an unknown (id, day) pair is not found;
    /// otherwise the stored record's status becomes Approved or Rejected per
    /// the flag, whatever state it was in, and is stored back.
    pub fn approve_payroll(&mut self, nip: u64, date: u64, approved: bool) -> (r: Result<
        PayrollApproval,
        Error,
    >)
        requires
            old(self).wf(),
        ensures
            final(self).wf(),
            r is Ok <==> old(self).approvals().contains_key(day_key(nip, date)),
            r matches Err(err) ==> err == Error::NotFound && *final(self) == *old(self),
            r matches Ok(p) ==> ({
                &&& p@.employee_nip == old(self).approval_rec(day_key(nip, date)).employee_nip
                &&& p@.attendance_date == old(self).approval_rec(
                    day_key(nip, date),
                ).attendance_date
                &&& p@.wage_amount == old(self).approval_rec(day_key(nip, date)).wage_amount
                &&& p@.manager_wallet == old(self).approval_rec(day_key(nip, date)).manager_wallet
                &&& p@.status == (if approved {
                    ApprovalStatus::Approved
                } else {
                    ApprovalStatus::Rejected
                })
                &&& final(self).approvals() == old(self).approvals().insert(
                    day_key(nip, date),
                    enc_approval(p@),
                )
                &&& final(self).employees() == old(self).employees()
                &&& final(self).attendance() == old(self).attendance()
                &&& final(self).next_id() == old(self).next_id()
            }),
    {
        let key = make_day_key(nip, date);
        let app_bytes = match self.stores.approval_get(key) {
            Some(b) => b,
            None => {
                return Err(Error::NotFound);
            },
        };
        let mut approval = match PayrollApproval::from_bytes(&app_bytes) {
            Some(p) => p,
            None => {
                proof {
                    let p0 = choose|p: PayrollApprovalV|
                        p.wf() && self.approvals()[key] == enc_approval(p);
                    assert(app_bytes@ != enc_approval(p0));
                    assert(false);
                }
                vstd::pervasive::unreached()
            },
        };
        proof {
            assert(exists|p: PayrollApprovalV|
                p.wf() && self.approvals()[key] == enc_approval(p));
            lemma_enc_approval_injective(self.approval_rec(key), approval@);
        }
        if approved {
            approval.status = ApprovalStatus::Approved;
        } else {
            approval.status = ApprovalStatus::Rejected;
        }
        let bytes = approval.to_bytes();
        let _prev = self.stores.approval_insert(key, bytes);
        proof {
            app_insert_preserves_wf(
                old(self).approvals(),
                self.approvals(),
                key,
                approval@,
            );
        }
        Ok(approval)
    }
}

/// Ids minted by successive successful add calls strictly increase: each call
/// returns the counter value it saw and leaves the counter one higher, so a
/// later id always exceeds an earlier one; a fresh service counts from zero.
pub proof fn lemma_minted_ids_strictly_increase(
    counter_before_first: u64,
    counter_before_second: u64,
    first_id: u64,
    second_id: u64,
)
    requires
        first_id == counter_before_first,
        counter_before_second == counter_before_first + 1,
        second_id == counter_before_second,
    ensures
        second_id > first_id,
{
}

/// Reading back a freshly added employee returns exactly the added record:
/// the stored bytes under its id are its canonical encoding, the encoding is
/// one-to-one, and the record's pension age is sixty minus its age.
pub proof fn lemma_get_after_add(
    before: Map<u64, Seq<u8>>,
    after: Map<u64, Seq<u8>>,
    added: EmployeeV,
    got: EmployeeV,
)
    requires
        added.wf(),
        got.wf(),
        added.pension_age == 60 - added.age,
        after == before.insert(added.nip, enc_employee(added)),
        after[added.nip] == enc_employee(got),
    ensures
        got == added,
        got.pension_age == 60 - got.age,
{
    lemma_enc_employee_injective(got, added);
}

/// Recording attendance twice for the same employee and day keeps only the
/// second record: the stored bytes are the second record's encoding, and no
/// other record decodes from them.
pub proof fn lemma_second_record_wins(
    table: Map<u128, Seq<u8>>,
    k: u128,
    first: Attendance,
    second: Attendance,
)
    ensures
        table.insert(k, enc_attendance(first)).insert(k, enc_attendance(second))[k]
            == enc_attendance(second),
        forall|a: Attendance|
            #[trigger] enc_attendance(a) == table.insert(k, enc_attendance(first)).insert(
                k,
                enc_attendance(second),
            )[k] ==> a == second,
{
    assert forall|a: Attendance|
        #[trigger] enc_attendance(a) == table.insert(k, enc_attendance(first)).insert(
            k,
            enc_attendance(second),
        )[k] implies a == second by {
        lemma_enc_attendance_injective(a, second);
    }
}

} // verus!
