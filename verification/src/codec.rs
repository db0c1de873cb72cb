//! Deterministic byte codec for the stored records.
//!
//! Every record has one canonical encoding: integers are little-endian,
//! byte strings are length-prefixed, options and the approval status carry a
//! one-byte tag. Decoding accepts exactly the canonical encodings of
//! well-formed records, so both round trips hold: decoding what was encoded
//! gives the record back, and re-encoding a decoded record gives the bytes
//! back.

use vstd::prelude::*;

use crate::records::{
    ApprovalStatus, Attendance, Employee, EmployeeV, PayrollApproval, PayrollApprovalV, PdfFile,
    PdfFileV,
};

verus! {

/// Records are stored with this cap on their encoded size; the codec also
/// uses it to bound every variable-length field.
pub const MAX_RECORD_BYTES: u64 = 2048;

/// Little-endian bytes of a `u64`.
pub open spec fn u64_le(v: u64) -> Seq<u8> {
    seq![
        (v & 0xff) as u8,
        ((v >> 8) & 0xff) as u8,
        ((v >> 16) & 0xff) as u8,
        ((v >> 24) & 0xff) as u8,
        ((v >> 32) & 0xff) as u8,
        ((v >> 40) & 0xff) as u8,
        ((v >> 48) & 0xff) as u8,
        ((v >> 56) & 0xff) as u8,
    ]
}

/// Little-endian bytes of a `u32`.
pub open spec fn u32_le(v: u32) -> Seq<u8> {
    seq![
        (v & 0xff) as u8,
        ((v >> 8) & 0xff) as u8,
        ((v >> 16) & 0xff) as u8,
        ((v >> 24) & 0xff) as u8,
    ]
}

/// Little-endian bytes of a `u128`, as its low and high `u64` halves.
pub open spec fn u128_le(v: u128) -> Seq<u8> {
    u64_le(v as u64) + u64_le((v >> 64) as u64)
}

/// A length-prefixed byte string.
pub open spec fn enc_bytes(s: Seq<u8>) -> Seq<u8> {
    u64_le(s.len() as u64) + s
}

/// The byte sequence `p` laid out in `b` starting at offset `i`.
pub open spec fn enc_at(b: Seq<u8>, i: int, p: Seq<u8>) -> bool {
    0 <= i && i + p.len() <= b.len() && b.subrange(i, i + p.len()) == p
}

proof fn lemma_at_split(b: Seq<u8>, i: int, x: Seq<u8>, y: Seq<u8>)
    requires
        enc_at(b, i, x + y),
    ensures
        enc_at(b, i, x),
        enc_at(b, i + x.len(), y),
{
    assert(b.subrange(i, i + x.len()) =~= x);
    assert forall|t: int| 0 <= t < y.len() implies b.subrange(
        i + x.len(),
        i + x.len() + y.len(),
    )[t] == y[t] by {
        assert((x + y)[x.len() + t] == y[t]);
        assert(b.subrange(i, i + (x + y).len() as int)[x.len() + t] == (x + y)[x.len() + t]);
    }
    assert(b.subrange(i + x.len(), i + x.len() + y.len()) =~= y);
}

proof fn lemma_at_join(b: Seq<u8>, i: int, x: Seq<u8>, y: Seq<u8>)
    requires
        enc_at(b, i, x),
        enc_at(b, i + x.len(), y),
    ensures
        enc_at(b, i, x + y),
{
    assert(b.subrange(i, i + x.len() + y.len()) =~= x + y);
}

proof fn lemma_at_same(b: Seq<u8>, i: int, p1: Seq<u8>, p2: Seq<u8>)
    requires
        enc_at(b, i, p1),
        enc_at(b, i, p2),
        p1.len() == p2.len(),
    ensures
        p1 == p2,
{
    assert(p1 =~= p2);
}

proof fn lemma_u64_le_inj(a: u64, c: u64)
    requires
        u64_le(a) == u64_le(c),
    ensures
        a == c,
{
    assert(u64_le(a)[0] == u64_le(c)[0]);
    assert(u64_le(a)[1] == u64_le(c)[1]);
    assert(u64_le(a)[2] == u64_le(c)[2]);
    assert(u64_le(a)[3] == u64_le(c)[3]);
    assert(u64_le(a)[4] == u64_le(c)[4]);
    assert(u64_le(a)[5] == u64_le(c)[5]);
    assert(u64_le(a)[6] == u64_le(c)[6]);
    assert(u64_le(a)[7] == u64_le(c)[7]);
    assert(a == c) by (bit_vector)
        requires
            (a & 0xff) as u8 == (c & 0xff) as u8,
            ((a >> 8) & 0xff) as u8 == ((c >> 8) & 0xff) as u8,
            ((a >> 16) & 0xff) as u8 == ((c >> 16) & 0xff) as u8,
            ((a >> 24) & 0xff) as u8 == ((c >> 24) & 0xff) as u8,
            ((a >> 32) & 0xff) as u8 == ((c >> 32) & 0xff) as u8,
            ((a >> 40) & 0xff) as u8 == ((c >> 40) & 0xff) as u8,
            ((a >> 48) & 0xff) as u8 == ((c >> 48) & 0xff) as u8,
            ((a >> 56) & 0xff) as u8 == ((c >> 56) & 0xff) as u8,
    ;
}

proof fn lemma_u32_le_inj(a: u32, c: u32)
    requires
        u32_le(a) == u32_le(c),
    ensures
        a == c,
{
    assert(u32_le(a)[0] == u32_le(c)[0]);
    assert(u32_le(a)[1] == u32_le(c)[1]);
    assert(u32_le(a)[2] == u32_le(c)[2]);
    assert(u32_le(a)[3] == u32_le(c)[3]);
    assert(a == c) by (bit_vector)
        requires
            (a & 0xff) as u8 == (c & 0xff) as u8,
            ((a >> 8) & 0xff) as u8 == ((c >> 8) & 0xff) as u8,
            ((a >> 16) & 0xff) as u8 == ((c >> 16) & 0xff) as u8,
            ((a >> 24) & 0xff) as u8 == ((c >> 24) & 0xff) as u8,
    ;
}

proof fn lemma_u128_le_inj(a: u128, c: u128)
    requires
        u128_le(a) == u128_le(c),
    ensures
        a == c,
{
    let ba = u128_le(a);
    assert(ba.subrange(0, 16) =~= ba);
    assert(enc_at(ba, 0, u128_le(a)));
    assert(enc_at(ba, 0, u128_le(c)));
    lemma_at_split(ba, 0, u64_le(a as u64), u64_le((a >> 64) as u64));
    lemma_at_split(ba, 0, u64_le(c as u64), u64_le((c >> 64) as u64));
    lemma_at_same(ba, 0, u64_le(a as u64), u64_le(c as u64));
    lemma_at_same(ba, 8, u64_le((a >> 64) as u64), u64_le((c >> 64) as u64));
    lemma_u64_le_inj(a as u64, c as u64);
    lemma_u64_le_inj((a >> 64) as u64, (c >> 64) as u64);
    assert(a == c) by (bit_vector)
        requires
            a as u64 == c as u64,
            (a >> 64) as u64 == (c >> 64) as u64,
    ;
}

/// Appends the little-endian bytes of `v`.
fn push_u64(out: &mut Vec<u8>, v: u64)
    ensures
        final(out)@ == old(out)@ + u64_le(v),
{
    out.push((v & 0xff) as u8);
    out.push(((v >> 8) & 0xff) as u8);
    out.push(((v >> 16) & 0xff) as u8);
    out.push(((v >> 24) & 0xff) as u8);
    out.push(((v >> 32) & 0xff) as u8);
    out.push(((v >> 40) & 0xff) as u8);
    out.push(((v >> 48) & 0xff) as u8);
    out.push(((v >> 56) & 0xff) as u8);
    proof {
        assert(out@ =~= old(out)@ + u64_le(v));
    }
}

/// Appends the little-endian bytes of `v`.
fn push_u32(out: &mut Vec<u8>, v: u32)
    ensures
        final(out)@ == old(out)@ + u32_le(v),
{
    out.push((v & 0xff) as u8);
    out.push(((v >> 8) & 0xff) as u8);
    out.push(((v >> 16) & 0xff) as u8);
    out.push(((v >> 24) & 0xff) as u8);
    proof {
        assert(out@ =~= old(out)@ + u32_le(v));
    }
}

/// Appends the little-endian bytes of `v`.
fn push_u128(out: &mut Vec<u8>, v: u128)
    ensures
        final(out)@ == old(out)@ + u128_le(v),
{
    push_u64(out, v as u64);
    push_u64(out, (v >> 64) as u64);
    proof {
        assert(out@ =~= old(out)@ + u128_le(v));
    }
}

/// Appends `s` with its length as a prefix.
fn push_bytes(out: &mut Vec<u8>, s: &Vec<u8>)
    ensures
        final(out)@ == old(out)@ + enc_bytes(s@),
{
    push_u64(out, s.len() as u64);
    let ghost mid = out@;
    let mut idx: usize = 0;
    while idx < s.len()
        invariant
            idx <= s@.len(),
            out@ == mid + s@.subrange(0, idx as int),
        decreases s@.len() - idx,
    {
        out.push(s[idx]);
        idx = idx + 1;
        proof {
            assert(out@ =~= mid + s@.subrange(0, idx as int));
        }
    }
    proof {
        assert(s@.subrange(0, s@.len() as int) =~= s@);
        assert(out@ =~= old(out)@ + enc_bytes(s@));
    }
}

/// Reads one byte.
fn read_u8(b: &Vec<u8>, i: usize) -> (r: Option<(u8, usize)>)
    requires
        i <= b@.len(),
    ensures
        match r {
            Some(p) => p.1 == i + 1 && p.1 <= b@.len() && b@[i as int] == p.0,
            None => i == b@.len(),
        },
{
    if i < b.len() {
        Some((b[i], i + 1))
    } else {
        None
    }
}

/// Reads a little-endian `u64`.
fn read_u64(b: &Vec<u8>, i: usize) -> (r: Option<(u64, usize)>)
    requires
        i <= b@.len(),
    ensures
        match r {
            Some(p) => p.1 == i + 8 && p.1 <= b@.len() && enc_at(b@, i as int, u64_le(p.0)),
            None => i + 8 > b@.len(),
        },
{
    if b.len() - i >= 8 {
        let x0 = b[i];
        let x1 = b[i + 1];
        let x2 = b[i + 2];
        let x3 = b[i + 3];
        let x4 = b[i + 4];
        let x5 = b[i + 5];
        let x6 = b[i + 6];
        let x7 = b[i + 7];
        let v = (x0 as u64) | ((x1 as u64) << 8) | ((x2 as u64) << 16) | ((x3 as u64) << 24)
            | ((x4 as u64) << 32) | ((x5 as u64) << 40) | ((x6 as u64) << 48) | ((x7 as u64) << 56);
        proof {
            assert((v & 0xff) as u8 == x0 && ((v >> 8) & 0xff) as u8 == x1 && ((v >> 16) & 0xff) as u8
                == x2 && ((v >> 24) & 0xff) as u8 == x3 && ((v >> 32) & 0xff) as u8 == x4 && ((v
                >> 40) & 0xff) as u8 == x5 && ((v >> 48) & 0xff) as u8 == x6 && ((v >> 56)
                & 0xff) as u8 == x7) by (bit_vector)
                requires
                    v == (x0 as u64) | ((x1 as u64) << 8) | ((x2 as u64) << 16) | ((x3 as u64)
                        << 24) | ((x4 as u64) << 32) | ((x5 as u64) << 40) | ((x6 as u64) << 48) | (
                    (x7 as u64) << 56),
            ;
            assert(b@.subrange(i as int, i as int + 8) =~= u64_le(v));
        }
        Some((v, i + 8))
    } else {
        None
    }
}

/// Reads a little-endian `u32`.
fn read_u32(b: &Vec<u8>, i: usize) -> (r: Option<(u32, usize)>)
    requires
        i <= b@.len(),
    ensures
        match r {
            Some(p) => p.1 == i + 4 && p.1 <= b@.len() && enc_at(b@, i as int, u32_le(p.0)),
            None => i + 4 > b@.len(),
        },
{
    if b.len() - i >= 4 {
        let x0 = b[i];
        let x1 = b[i + 1];
        let x2 = b[i + 2];
        let x3 = b[i + 3];
        let v = (x0 as u32) | ((x1 as u32) << 8) | ((x2 as u32) << 16) | ((x3 as u32) << 24);
        proof {
            assert((v & 0xff) as u8 == x0 && ((v >> 8) & 0xff) as u8 == x1 && ((v >> 16) & 0xff) as u8
                == x2 && ((v >> 24) & 0xff) as u8 == x3) by (bit_vector)
                requires
                    v == (x0 as u32) | ((x1 as u32) << 8) | ((x2 as u32) << 16) | ((x3 as u32)
                        << 24),
            ;
            assert(b@.subrange(i as int, i as int + 4) =~= u32_le(v));
        }
        Some((v, i + 4))
    } else {
        None
    }
}

/// Reads a little-endian `u128`.
fn read_u128(b: &Vec<u8>, i: usize) -> (r: Option<(u128, usize)>)
    requires
        i <= b@.len(),
    ensures
        match r {
            Some(p) => p.1 == i + 16 && p.1 <= b@.len() && enc_at(b@, i as int, u128_le(p.0)),
            None => i + 16 > b@.len(),
        },
{
    let (lo, j) = match read_u64(b, i) {
        Some(p) => p,
        None => {
            return None;
        },
    };
    let (hi, j2) = match read_u64(b, j) {
        Some(p) => p,
        None => {
            return None;
        },
    };
    let v = (lo as u128) | ((hi as u128) << 64);
    proof {
        assert(v as u64 == lo && (v >> 64) as u64 == hi) by (bit_vector)
            requires
                v == (lo as u128) | ((hi as u128) << 64),
        ;
        lemma_at_join(b@, i as int, u64_le(lo), u64_le(hi));
    }
    Some((v, j2))
}

/// Reads a length-prefixed byte string of at most `MAX_RECORD_BYTES` bytes.
fn read_bytes(b: &Vec<u8>, i: usize) -> (r: Option<(Vec<u8>, usize)>)
    requires
        i <= b@.len(),
    ensures
        match r {
            Some(p) => p.1 == i + 8 + p.0@.len() && p.1 <= b@.len() && p.0@.len() <= 2048 && enc_at(
                b@,
                i as int,
                enc_bytes(p.0@),
            ),
            None => forall|s: Seq<u8>| s.len() <= 2048 ==> !enc_at(b@, i as int, #[trigger] enc_bytes(s)),
        },
{
    let (l, j) = match read_u64(b, i) {
        Some(p) => p,
        None => {
            proof {
                assert forall|s: Seq<u8>| s.len() <= 2048 implies !enc_at(
                    b@,
                    i as int,
                    #[trigger] enc_bytes(s),
                ) by {
                    if enc_at(b@, i as int, enc_bytes(s)) {
                        lemma_at_split(b@, i as int, u64_le(s.len() as u64), s);
                    }
                }
            }
            return None;
        },
    };
    if l > MAX_RECORD_BYTES || (l as usize) > b.len() - j {
        proof {
            assert forall|s: Seq<u8>| s.len() <= 2048 implies !enc_at(
                b@,
                i as int,
                #[trigger] enc_bytes(s),
            ) by {
                if enc_at(b@, i as int, enc_bytes(s)) {
                    lemma_at_split(b@, i as int, u64_le(s.len() as u64), s);
                    lemma_at_same(b@, i as int, u64_le(s.len() as u64), u64_le(l));
                    lemma_u64_le_inj(s.len() as u64, l);
                }
            }
        }
        return None;
    }
    let l32 = l as usize;
    let mut v: Vec<u8> = Vec::new();
    let mut k: usize = 0;
    while k < l32
        invariant
            k <= l32,
            j + l32 <= b@.len(),
            b@.len() <= usize::MAX,
            v@ == b@.subrange(j as int, j as int + k as int),
        decreases l32 - k,
    {
        v.push(b[j + k]);
        k = k + 1;
        proof {
            assert(v@ =~= b@.subrange(j as int, j as int + k as int));
        }
    }
    proof {
        assert(enc_at(b@, j as int, v@));
        lemma_at_join(b@, i as int, u64_le(l), v@);
        assert(u64_le(l) + v@ =~= enc_bytes(v@));
    }
    Some((v, j + l32))
}

/// A one-byte boolean tag.
pub open spec fn enc_bool(x: bool) -> Seq<u8> {
    if x {
        seq![1u8]
    } else {
        seq![0u8]
    }
}

/// An optional `u64`: a one-byte tag, then the value if present.
pub open spec fn enc_opt_u64(o: Option<u64>) -> Seq<u8> {
    match o {
        Option::None => seq![0u8],
        Option::Some(v) => seq![1u8] + u64_le(v),
    }
}

/// A one-byte approval status tag.
pub open spec fn enc_status(s: ApprovalStatus) -> Seq<u8> {
    match s {
        ApprovalStatus::Pending => seq![0u8],
        ApprovalStatus::Approved => seq![1u8],
        ApprovalStatus::Rejected => seq![2u8],
    }
}

impl PdfFileV {
    /// Every variable-length field fits the record cap.
    pub open spec fn wf(self) -> bool {
        self.content.len() <= 2048
    }
}

impl EmployeeV {
    /// Every variable-length field fits the record cap.
    pub open spec fn wf(self) -> bool {
        &&& self.name.len() <= 2048
        &&& self.wallet_address.len() <= 2048
        &&& match self.sk_file {
            Option::Some(f) => f.wf(),
            Option::None => true,
        }
    }
}

impl PayrollApprovalV {
    /// Every variable-length field fits the record cap.
    pub open spec fn wf(self) -> bool {
        self.manager_wallet.len() <= 2048
    }
}

pub open spec fn pdf_tail3(p: PdfFileV) -> Seq<u8> {
    u64_le(p.created_at) + enc_opt_u64(p.updated_at)
}

pub open spec fn pdf_tail2(p: PdfFileV) -> Seq<u8> {
    enc_bool(p.is_verified) + pdf_tail3(p)
}

pub open spec fn pdf_tail1(p: PdfFileV) -> Seq<u8> {
    enc_bytes(p.content) + pdf_tail2(p)
}

/// Canonical encoding of a document attachment.
pub open spec fn enc_pdf(p: PdfFileV) -> Seq<u8> {
    u64_le(p.id) + pdf_tail1(p)
}

/// An optional attachment: a one-byte tag, then the attachment if present.
pub open spec fn enc_opt_pdf(o: Option<PdfFileV>) -> Seq<u8> {
    match o {
        Option::None => seq![0u8],
        Option::Some(p) => seq![1u8] + enc_pdf(p),
    }
}

pub open spec fn emp_tail7(e: EmployeeV) -> Seq<u8> {
    u64_le(e.created_at) + enc_opt_u64(e.updated_at)
}

pub open spec fn emp_tail6(e: EmployeeV) -> Seq<u8> {
    enc_bytes(e.wallet_address) + emp_tail7(e)
}

pub open spec fn emp_tail5(e: EmployeeV) -> Seq<u8> {
    enc_opt_pdf(e.sk_file) + emp_tail6(e)
}

pub open spec fn emp_tail4(e: EmployeeV) -> Seq<u8> {
    u64_le(e.wage_per_hour) + emp_tail5(e)
}

pub open spec fn emp_tail3(e: EmployeeV) -> Seq<u8> {
    u32_le(e.pension_age) + emp_tail4(e)
}

pub open spec fn emp_tail2(e: EmployeeV) -> Seq<u8> {
    u32_le(e.age) + emp_tail3(e)
}

pub open spec fn emp_tail1(e: EmployeeV) -> Seq<u8> {
    enc_bytes(e.name) + emp_tail2(e)
}

/// Canonical encoding of an employee record.
pub open spec fn enc_employee(e: EmployeeV) -> Seq<u8> {
    u64_le(e.nip) + emp_tail1(e)
}

pub open spec fn att_tail2(a: Attendance) -> Seq<u8> {
    u64_le(a.total_hours) + u128_le(a.daily_wage)
}

pub open spec fn att_tail1(a: Attendance) -> Seq<u8> {
    u64_le(a.check_out) + att_tail2(a)
}

/// Canonical encoding of an attendance record.
pub open spec fn enc_attendance(a: Attendance) -> Seq<u8> {
    u64_le(a.check_in) + att_tail1(a)
}

pub open spec fn app_tail3(p: PayrollApprovalV) -> Seq<u8> {
    enc_status(p.status) + enc_bytes(p.manager_wallet)
}

pub open spec fn app_tail2(p: PayrollApprovalV) -> Seq<u8> {
    u128_le(p.wage_amount) + app_tail3(p)
}

pub open spec fn app_tail1(p: PayrollApprovalV) -> Seq<u8> {
    u64_le(p.attendance_date) + app_tail2(p)
}

/// Canonical encoding of a payroll-approval record.
pub open spec fn enc_approval(p: PayrollApprovalV) -> Seq<u8> {
    u64_le(p.employee_nip) + app_tail1(p)
}

proof fn lemma_u64_at_agree(b: Seq<u8>, i: int, v1: u64, v2: u64)
    requires
        enc_at(b, i, u64_le(v1)),
        enc_at(b, i, u64_le(v2)),
    ensures
        v1 == v2,
{
    lemma_at_same(b, i, u64_le(v1), u64_le(v2));
    lemma_u64_le_inj(v1, v2);
}

proof fn lemma_u32_at_agree(b: Seq<u8>, i: int, v1: u32, v2: u32)
    requires
        enc_at(b, i, u32_le(v1)),
        enc_at(b, i, u32_le(v2)),
    ensures
        v1 == v2,
{
    lemma_at_same(b, i, u32_le(v1), u32_le(v2));
    lemma_u32_le_inj(v1, v2);
}

proof fn lemma_u128_at_agree(b: Seq<u8>, i: int, v1: u128, v2: u128)
    requires
        enc_at(b, i, u128_le(v1)),
        enc_at(b, i, u128_le(v2)),
    ensures
        v1 == v2,
{
    lemma_at_same(b, i, u128_le(v1), u128_le(v2));
    lemma_u128_le_inj(v1, v2);
}

proof fn lemma_bytes_at_agree(b: Seq<u8>, i: int, s1: Seq<u8>, s2: Seq<u8>)
    requires
        enc_at(b, i, enc_bytes(s1)),
        enc_at(b, i, enc_bytes(s2)),
        s1.len() <= 2048,
        s2.len() <= 2048,
    ensures
        s1 == s2,
{
    lemma_at_split(b, i, u64_le(s1.len() as u64), s1);
    lemma_at_split(b, i, u64_le(s2.len() as u64), s2);
    lemma_u64_at_agree(b, i, s1.len() as u64, s2.len() as u64);
    lemma_at_same(b, i + 8, s1, s2);
}

proof fn lemma_bool_at_agree(b: Seq<u8>, i: int, x1: bool, x2: bool)
    requires
        enc_at(b, i, enc_bool(x1)),
        enc_at(b, i, enc_bool(x2)),
    ensures
        x1 == x2,
{
    assert(b.subrange(i, i + 1)[0] == b[i]);
    assert(enc_bool(x1)[0] == b[i]);
    assert(enc_bool(x2)[0] == b[i]);
}

proof fn lemma_opt_u64_at_agree(b: Seq<u8>, i: int, o1: Option<u64>, o2: Option<u64>)
    requires
        enc_at(b, i, enc_opt_u64(o1)),
        enc_at(b, i, enc_opt_u64(o2)),
    ensures
        o1 == o2,
{
    assert(enc_opt_u64(o1)[0] == b[i]);
    assert(enc_opt_u64(o2)[0] == b[i]);
    match (o1, o2) {
        (Option::Some(v1), Option::Some(v2)) => {
            lemma_at_split(b, i, seq![1u8], u64_le(v1));
            lemma_at_split(b, i, seq![1u8], u64_le(v2));
            lemma_u64_at_agree(b, i + 1, v1, v2);
        },
        _ => {},
    }
}

proof fn lemma_status_at_agree(b: Seq<u8>, i: int, s1: ApprovalStatus, s2: ApprovalStatus)
    requires
        enc_at(b, i, enc_status(s1)),
        enc_at(b, i, enc_status(s2)),
    ensures
        s1 == s2,
{
    assert(enc_status(s1)[0] == b[i]);
    assert(enc_status(s2)[0] == b[i]);
}

proof fn lemma_pdf_at_agree(b: Seq<u8>, i: int, p1: PdfFileV, p2: PdfFileV)
    requires
        enc_at(b, i, enc_pdf(p1)),
        enc_at(b, i, enc_pdf(p2)),
        p1.wf(),
        p2.wf(),
    ensures
        p1 == p2,
{
    lemma_at_split(b, i, u64_le(p1.id), pdf_tail1(p1));
    lemma_at_split(b, i, u64_le(p2.id), pdf_tail1(p2));
    lemma_u64_at_agree(b, i, p1.id, p2.id);
    lemma_at_split(b, i + 8, enc_bytes(p1.content), pdf_tail2(p1));
    lemma_at_split(b, i + 8, enc_bytes(p2.content), pdf_tail2(p2));
    lemma_bytes_at_agree(b, i + 8, p1.content, p2.content);
    let i2 = i + 8 + enc_bytes(p1.content).len();
    lemma_at_split(b, i2, enc_bool(p1.is_verified), pdf_tail3(p1));
    lemma_at_split(b, i2, enc_bool(p2.is_verified), pdf_tail3(p2));
    lemma_bool_at_agree(b, i2, p1.is_verified, p2.is_verified);
    lemma_at_split(b, i2 + 1, u64_le(p1.created_at), enc_opt_u64(p1.updated_at));
    lemma_at_split(b, i2 + 1, u64_le(p2.created_at), enc_opt_u64(p2.updated_at));
    lemma_u64_at_agree(b, i2 + 1, p1.created_at, p2.created_at);
    lemma_opt_u64_at_agree(b, i2 + 9, p1.updated_at, p2.updated_at);
    assert(p1 =~= p2);
}

proof fn lemma_opt_pdf_at_agree(b: Seq<u8>, i: int, o1: Option<PdfFileV>, o2: Option<PdfFileV>)
    requires
        enc_at(b, i, enc_opt_pdf(o1)),
        enc_at(b, i, enc_opt_pdf(o2)),
        match o1 {
            Option::Some(p) => p.wf(),
            Option::None => true,
        },
        match o2 {
            Option::Some(p) => p.wf(),
            Option::None => true,
        },
    ensures
        o1 == o2,
{
    assert(enc_opt_pdf(o1)[0] == b[i]);
    assert(enc_opt_pdf(o2)[0] == b[i]);
    match (o1, o2) {
        (Option::Some(p1), Option::Some(p2)) => {
            lemma_at_split(b, i, seq![1u8], enc_pdf(p1));
            lemma_at_split(b, i, seq![1u8], enc_pdf(p2));
            lemma_pdf_at_agree(b, i + 1, p1, p2);
        },
        _ => {},
    }
}

proof fn lemma_employee_at_agree(b: Seq<u8>, i: int, e1: EmployeeV, e2: EmployeeV)
    requires
        enc_at(b, i, enc_employee(e1)),
        enc_at(b, i, enc_employee(e2)),
        e1.wf(),
        e2.wf(),
    ensures
        e1 == e2,
{
    lemma_at_split(b, i, u64_le(e1.nip), emp_tail1(e1));
    lemma_at_split(b, i, u64_le(e2.nip), emp_tail1(e2));
    lemma_u64_at_agree(b, i, e1.nip, e2.nip);
    lemma_at_split(b, i + 8, enc_bytes(e1.name), emp_tail2(e1));
    lemma_at_split(b, i + 8, enc_bytes(e2.name), emp_tail2(e2));
    lemma_bytes_at_agree(b, i + 8, e1.name, e2.name);
    let i2 = i + 8 + enc_bytes(e1.name).len();
    lemma_at_split(b, i2, u32_le(e1.age), emp_tail3(e1));
    lemma_at_split(b, i2, u32_le(e2.age), emp_tail3(e2));
    lemma_u32_at_agree(b, i2, e1.age, e2.age);
    lemma_at_split(b, i2 + 4, u32_le(e1.pension_age), emp_tail4(e1));
    lemma_at_split(b, i2 + 4, u32_le(e2.pension_age), emp_tail4(e2));
    lemma_u32_at_agree(b, i2 + 4, e1.pension_age, e2.pension_age);
    lemma_at_split(b, i2 + 8, u64_le(e1.wage_per_hour), emp_tail5(e1));
    lemma_at_split(b, i2 + 8, u64_le(e2.wage_per_hour), emp_tail5(e2));
    lemma_u64_at_agree(b, i2 + 8, e1.wage_per_hour, e2.wage_per_hour);
    lemma_at_split(b, i2 + 16, enc_opt_pdf(e1.sk_file), emp_tail6(e1));
    lemma_at_split(b, i2 + 16, enc_opt_pdf(e2.sk_file), emp_tail6(e2));
    lemma_opt_pdf_at_agree(b, i2 + 16, e1.sk_file, e2.sk_file);
    let i3 = i2 + 16 + enc_opt_pdf(e1.sk_file).len();
    lemma_at_split(b, i3, enc_bytes(e1.wallet_address), emp_tail7(e1));
    lemma_at_split(b, i3, enc_bytes(e2.wallet_address), emp_tail7(e2));
    lemma_bytes_at_agree(b, i3, e1.wallet_address, e2.wallet_address);
    let i4 = i3 + enc_bytes(e1.wallet_address).len();
    lemma_at_split(b, i4, u64_le(e1.created_at), enc_opt_u64(e1.updated_at));
    lemma_at_split(b, i4, u64_le(e2.created_at), enc_opt_u64(e2.updated_at));
    lemma_u64_at_agree(b, i4, e1.created_at, e2.created_at);
    lemma_opt_u64_at_agree(b, i4 + 8, e1.updated_at, e2.updated_at);
    assert(e1 =~= e2);
}

proof fn lemma_attendance_at_agree(b: Seq<u8>, i: int, a1: Attendance, a2: Attendance)
    requires
        enc_at(b, i, enc_attendance(a1)),
        enc_at(b, i, enc_attendance(a2)),
    ensures
        a1 == a2,
{
    lemma_at_split(b, i, u64_le(a1.check_in), att_tail1(a1));
    lemma_at_split(b, i, u64_le(a2.check_in), att_tail1(a2));
    lemma_u64_at_agree(b, i, a1.check_in, a2.check_in);
    lemma_at_split(b, i + 8, u64_le(a1.check_out), att_tail2(a1));
    lemma_at_split(b, i + 8, u64_le(a2.check_out), att_tail2(a2));
    lemma_u64_at_agree(b, i + 8, a1.check_out, a2.check_out);
    lemma_at_split(b, i + 16, u64_le(a1.total_hours), u128_le(a1.daily_wage));
    lemma_at_split(b, i + 16, u64_le(a2.total_hours), u128_le(a2.daily_wage));
    lemma_u64_at_agree(b, i + 16, a1.total_hours, a2.total_hours);
    lemma_u128_at_agree(b, i + 24, a1.daily_wage, a2.daily_wage);
}

proof fn lemma_approval_at_agree(b: Seq<u8>, i: int, p1: PayrollApprovalV, p2: PayrollApprovalV)
    requires
        enc_at(b, i, enc_approval(p1)),
        enc_at(b, i, enc_approval(p2)),
        p1.wf(),
        p2.wf(),
    ensures
        p1 == p2,
{
    lemma_at_split(b, i, u64_le(p1.employee_nip), app_tail1(p1));
    lemma_at_split(b, i, u64_le(p2.employee_nip), app_tail1(p2));
    lemma_u64_at_agree(b, i, p1.employee_nip, p2.employee_nip);
    lemma_at_split(b, i + 8, u64_le(p1.attendance_date), app_tail2(p1));
    lemma_at_split(b, i + 8, u64_le(p2.attendance_date), app_tail2(p2));
    lemma_u64_at_agree(b, i + 8, p1.attendance_date, p2.attendance_date);
    lemma_at_split(b, i + 16, u128_le(p1.wage_amount), app_tail3(p1));
    lemma_at_split(b, i + 16, u128_le(p2.wage_amount), app_tail3(p2));
    lemma_u128_at_agree(b, i + 16, p1.wage_amount, p2.wage_amount);
    lemma_at_split(b, i + 32, enc_status(p1.status), enc_bytes(p1.manager_wallet));
    lemma_at_split(b, i + 32, enc_status(p2.status), enc_bytes(p2.manager_wallet));
    lemma_status_at_agree(b, i + 32, p1.status, p2.status);
    lemma_bytes_at_agree(b, i + 33, p1.manager_wallet, p2.manager_wallet);
    assert(p1 =~= p2);
}

proof fn lemma_at_whole(b: Seq<u8>, p: Seq<u8>)
    requires
        b == p,
    ensures
        enc_at(b, 0, p),
{
    assert(b.subrange(0, p.len() as int) =~= p);
}

/// The view of an optional attachment.
pub open spec fn view_opt_pdf(o: Option<PdfFile>) -> Option<PdfFileV> {
    match o {
        Option::Some(f) => Option::Some(f@),
        Option::None => Option::None,
    }
}

/// Appends a one-byte boolean tag.
fn push_bool(out: &mut Vec<u8>, x: bool)
    ensures
        final(out)@ == old(out)@ + enc_bool(x),
{
    if x {
        out.push(1u8);
    } else {
        out.push(0u8);
    }
    proof {
        assert(out@ =~= old(out)@ + enc_bool(x));
    }
}

/// Appends an optional `u64`.
fn push_opt_u64(out: &mut Vec<u8>, o: &Option<u64>)
    ensures
        final(out)@ == old(out)@ + enc_opt_u64(*o),
{
    match o {
        Option::None => {
            out.push(0u8);
        },
        Option::Some(v) => {
            out.push(1u8);
            push_u64(out, *v);
        },
    }
    proof {
        assert(out@ =~= old(out)@ + enc_opt_u64(*o));
    }
}

/// Appends a one-byte approval status tag.
fn push_status(out: &mut Vec<u8>, s: ApprovalStatus)
    ensures
        final(out)@ == old(out)@ + enc_status(s),
{
    match s {
        ApprovalStatus::Pending => out.push(0u8),
        ApprovalStatus::Approved => out.push(1u8),
        ApprovalStatus::Rejected => out.push(2u8),
    }
    proof {
        assert(out@ =~= old(out)@ + enc_status(s));
    }
}

/// Appends a document attachment.
fn push_pdf(out: &mut Vec<u8>, f: &PdfFile)
    ensures
        final(out)@ == old(out)@ + enc_pdf(f@),
{
    push_u64(out, f.id);
    push_bytes(out, &f.content);
    push_bool(out, f.is_verified);
    push_u64(out, f.created_at);
    push_opt_u64(out, &f.updated_at);
    proof {
        assert(out@ =~= old(out)@ + enc_pdf(f@));
    }
}

/// Appends an optional document attachment.
fn push_opt_pdf(out: &mut Vec<u8>, o: &Option<PdfFile>)
    ensures
        final(out)@ == old(out)@ + enc_opt_pdf(view_opt_pdf(*o)),
{
    match o {
        Option::None => {
            out.push(0u8);
        },
        Option::Some(f) => {
            out.push(1u8);
            push_pdf(out, f);
        },
    }
    proof {
        assert(out@ =~= old(out)@ + enc_opt_pdf(view_opt_pdf(*o)));
    }
}

/// Reads a one-byte boolean tag.
fn read_bool(b: &Vec<u8>, i: usize) -> (r: Option<(bool, usize)>)
    requires
        i <= b@.len(),
    ensures
        match r {
            Some(p) => p.1 == i + 1 && p.1 <= b@.len() && enc_at(b@, i as int, enc_bool(p.0)),
            None => forall|x: bool| !enc_at(b@, i as int, #[trigger] enc_bool(x)),
        },
{
    match read_u8(b, i) {
        Some((t, j)) => {
            if t == 0 {
                proof {
                    assert(b@.subrange(i as int, i as int + 1) =~= enc_bool(false));
                }
                Some((false, j))
            } else if t == 1 {
                proof {
                    assert(b@.subrange(i as int, i as int + 1) =~= enc_bool(true));
                }
                Some((true, j))
            } else {
                proof {
                    assert forall|x: bool| !enc_at(b@, i as int, #[trigger] enc_bool(x)) by {
                        if enc_at(b@, i as int, enc_bool(x)) {
                            assert(enc_bool(x)[0] == b@[i as int]);
                        }
                    }
                }
                None
            }
        },
        None => {
            proof {
                assert forall|x: bool| !enc_at(b@, i as int, #[trigger] enc_bool(x)) by {
                    assert(enc_bool(x).len() == 1);
                }
            }
            None
        },
    }
}

/// Reads an optional `u64`.
fn read_opt_u64(b: &Vec<u8>, i: usize) -> (r: Option<(Option<u64>, usize)>)
    requires
        i <= b@.len(),
    ensures
        match r {
            Some(p) => p.1 == i + enc_opt_u64(p.0).len() && p.1 <= b@.len() && enc_at(
                b@,
                i as int,
                enc_opt_u64(p.0),
            ),
            None => forall|o: Option<u64>| !enc_at(b@, i as int, #[trigger] enc_opt_u64(o)),
        },
{
    match read_u8(b, i) {
        Some((t, j)) => {
            if t == 0 {
                proof {
                    assert(b@.subrange(i as int, i as int + 1) =~= enc_opt_u64(Option::None));
                }
                Some((None, j))
            } else if t == 1 {
                match read_u64(b, j) {
                    Some((v, j2)) => {
                        proof {
                            assert(b@.subrange(i as int, i as int + 1) =~= seq![1u8]);
                            lemma_at_join(b@, i as int, seq![1u8], u64_le(v));
                        }
                        Some((Some(v), j2))
                    },
                    None => {
                        proof {
                            assert forall|o: Option<u64>| !enc_at(
                                b@,
                                i as int,
                                #[trigger] enc_opt_u64(o),
                            ) by {
                                if enc_at(b@, i as int, enc_opt_u64(o)) {
                                    assert(enc_opt_u64(o)[0] == b@[i as int]);
                                    match o {
                                        Option::Some(v) => {
                                            lemma_at_split(b@, i as int, seq![1u8], u64_le(v));
                                        },
                                        Option::None => {},
                                    }
                                }
                            }
                        }
                        None
                    },
                }
            } else {
                proof {
                    assert forall|o: Option<u64>| !enc_at(
                        b@,
                        i as int,
                        #[trigger] enc_opt_u64(o),
                    ) by {
                        if enc_at(b@, i as int, enc_opt_u64(o)) {
                            assert(enc_opt_u64(o)[0] == b@[i as int]);
                        }
                    }
                }
                None
            }
        },
        None => {
            proof {
                assert forall|o: Option<u64>| !enc_at(b@, i as int, #[trigger] enc_opt_u64(o)) by {
                    assert(enc_opt_u64(o).len() >= 1);
                }
            }
            None
        },
    }
}

/// Reads a one-byte approval status tag.
fn read_status(b: &Vec<u8>, i: usize) -> (r: Option<(ApprovalStatus, usize)>)
    requires
        i <= b@.len(),
    ensures
        match r {
            Some(p) => p.1 == i + 1 && p.1 <= b@.len() && enc_at(b@, i as int, enc_status(p.0)),
            None => forall|s: ApprovalStatus| !enc_at(b@, i as int, #[trigger] enc_status(s)),
        },
{
    match read_u8(b, i) {
        Some((t, j)) => {
            if t == 0 {
                proof {
                    assert(b@.subrange(i as int, i as int + 1) =~= enc_status(
                        ApprovalStatus::Pending,
                    ));
                }
                Some((ApprovalStatus::Pending, j))
            } else if t == 1 {
                proof {
                    assert(b@.subrange(i as int, i as int + 1) =~= enc_status(
                        ApprovalStatus::Approved,
                    ));
                }
                Some((ApprovalStatus::Approved, j))
            } else if t == 2 {
                proof {
                    assert(b@.subrange(i as int, i as int + 1) =~= enc_status(
                        ApprovalStatus::Rejected,
                    ));
                }
                Some((ApprovalStatus::Rejected, j))
            } else {
                proof {
                    assert forall|s: ApprovalStatus| !enc_at(
                        b@,
                        i as int,
                        #[trigger] enc_status(s),
                    ) by {
                        if enc_at(b@, i as int, enc_status(s)) {
                            assert(enc_status(s)[0] == b@[i as int]);
                        }
                    }
                }
                None
            }
        },
        None => {
            proof {
                assert forall|s: ApprovalStatus| !enc_at(b@, i as int, #[trigger] enc_status(s)) by {
                    assert(enc_status(s).len() == 1);
                }
            }
            None
        },
    }
}

/// Reads a document attachment.
fn read_pdf(b: &Vec<u8>, i: usize) -> (r: Option<(PdfFile, usize)>)
    requires
        i <= b@.len(),
    ensures
        match r {
            Some(p) => p.0@.wf() && p.1 == i + enc_pdf(p.0@).len() && p.1 <= b@.len() && enc_at(
                b@,
                i as int,
                enc_pdf(p.0@),
            ),
            None => forall|p: PdfFileV| p.wf() ==> !enc_at(b@, i as int, #[trigger] enc_pdf(p)),
        },
{
    let (id, j1) = match read_u64(b, i) {
        Some(p) => p,
        None => {
            proof {
                assert forall|p: PdfFileV| p.wf() implies !enc_at(
                    b@,
                    i as int,
                    #[trigger] enc_pdf(p),
                ) by {
                    if enc_at(b@, i as int, enc_pdf(p)) {
                        lemma_at_split(b@, i as int, u64_le(p.id), pdf_tail1(p));
                    }
                }
            }
            return None;
        },
    };
    let (content, j2) = match read_bytes(b, j1) {
        Some(p) => p,
        None => {
            proof {
                assert forall|p: PdfFileV| p.wf() implies !enc_at(
                    b@,
                    i as int,
                    #[trigger] enc_pdf(p),
                ) by {
                    if enc_at(b@, i as int, enc_pdf(p)) {
                        lemma_at_split(b@, i as int, u64_le(p.id), pdf_tail1(p));
                        lemma_at_split(b@, i + 8, enc_bytes(p.content), pdf_tail2(p));
                    }
                }
            }
            return None;
        },
    };
    let (ver, j3) = match read_bool(b, j2) {
        Some(p) => p,
        None => {
            proof {
                assert forall|p: PdfFileV| p.wf() implies !enc_at(
                    b@,
                    i as int,
                    #[trigger] enc_pdf(p),
                ) by {
                    if enc_at(b@, i as int, enc_pdf(p)) {
                        lemma_at_split(b@, i as int, u64_le(p.id), pdf_tail1(p));
                        lemma_at_split(b@, i + 8, enc_bytes(p.content), pdf_tail2(p));
                        lemma_bytes_at_agree(b@, i + 8, content@, p.content);
                        lemma_at_split(b@, j2 as int, enc_bool(p.is_verified), pdf_tail3(p));
                    }
                }
            }
            return None;
        },
    };
    let (created, j4) = match read_u64(b, j3) {
        Some(p) => p,
        None => {
            proof {
                assert forall|p: PdfFileV| p.wf() implies !enc_at(
                    b@,
                    i as int,
                    #[trigger] enc_pdf(p),
                ) by {
                    if enc_at(b@, i as int, enc_pdf(p)) {
                        lemma_at_split(b@, i as int, u64_le(p.id), pdf_tail1(p));
                        lemma_at_split(b@, i + 8, enc_bytes(p.content), pdf_tail2(p));
                        lemma_bytes_at_agree(b@, i + 8, content@, p.content);
                        lemma_at_split(b@, j2 as int, enc_bool(p.is_verified), pdf_tail3(p));
                        lemma_at_split(b@, j3 as int, u64_le(p.created_at), enc_opt_u64(
                            p.updated_at,
                        ));
                    }
                }
            }
            return None;
        },
    };
    let (upd, j5) = match read_opt_u64(b, j4) {
        Some(p) => p,
        None => {
            proof {
                assert forall|p: PdfFileV| p.wf() implies !enc_at(
                    b@,
                    i as int,
                    #[trigger] enc_pdf(p),
                ) by {
                    if enc_at(b@, i as int, enc_pdf(p)) {
                        lemma_at_split(b@, i as int, u64_le(p.id), pdf_tail1(p));
                        lemma_at_split(b@, i + 8, enc_bytes(p.content), pdf_tail2(p));
                        lemma_bytes_at_agree(b@, i + 8, content@, p.content);
                        lemma_at_split(b@, j2 as int, enc_bool(p.is_verified), pdf_tail3(p));
                        lemma_at_split(b@, j3 as int, u64_le(p.created_at), enc_opt_u64(
                            p.updated_at,
                        ));
                    }
                }
            }
            return None;
        },
    };
    let f = PdfFile { id, content, is_verified: ver, created_at: created, updated_at: upd };
    proof {
        lemma_at_join(b@, j3 as int, u64_le(created), enc_opt_u64(upd));
        lemma_at_join(b@, j2 as int, enc_bool(ver), pdf_tail3(f@));
        lemma_at_join(b@, j1 as int, enc_bytes(content@), pdf_tail2(f@));
        lemma_at_join(b@, i as int, u64_le(id), pdf_tail1(f@));
    }
    Some((f, j5))
}

/// Reads an optional document attachment.
fn read_opt_pdf(b: &Vec<u8>, i: usize) -> (r: Option<(Option<PdfFile>, usize)>)
    requires
        i <= b@.len(),
    ensures
        match r {
            Some(p) => {
                &&& match p.0 {
                    Option::Some(f) => f@.wf(),
                    Option::None => true,
                }
                &&& p.1 == i + enc_opt_pdf(view_opt_pdf(p.0)).len()
                &&& p.1 <= b@.len()
                &&& enc_at(b@, i as int, enc_opt_pdf(view_opt_pdf(p.0)))
            },
            None => forall|o: Option<PdfFileV>|
                (match o {
                    Option::Some(p) => p.wf(),
                    Option::None => true,
                }) ==> !enc_at(b@, i as int, #[trigger] enc_opt_pdf(o)),
        },
{
    match read_u8(b, i) {
        Some((t, j)) => {
            if t == 0 {
                proof {
                    assert(b@.subrange(i as int, i as int + 1) =~= enc_opt_pdf(Option::None));
                }
                Some((None, j))
            } else if t == 1 {
                match read_pdf(b, j) {
                    Some((f, j2)) => {
                        proof {
                            assert(b@.subrange(i as int, i as int + 1) =~= seq![1u8]);
                            lemma_at_join(b@, i as int, seq![1u8], enc_pdf(f@));
                        }
                        Some((Some(f), j2))
                    },
                    None => {
                        proof {
                            assert forall|o: Option<PdfFileV>|
                                (match o {
                                    Option::Some(p) => p.wf(),
                                    Option::None => true,
                                }) implies !enc_at(b@, i as int, #[trigger] enc_opt_pdf(o)) by {
                                if enc_at(b@, i as int, enc_opt_pdf(o)) {
                                    assert(enc_opt_pdf(o)[0] == b@[i as int]);
                                    match o {
                                        Option::Some(p) => {
                                            lemma_at_split(b@, i as int, seq![1u8], enc_pdf(p));
                                        },
                                        Option::None => {},
                                    }
                                }
                            }
                        }
                        None
                    },
                }
            } else {
                proof {
                    assert forall|o: Option<PdfFileV>|
                        (match o {
                            Option::Some(p) => p.wf(),
                            Option::None => true,
                        }) implies !enc_at(b@, i as int, #[trigger] enc_opt_pdf(o)) by {
                        if enc_at(b@, i as int, enc_opt_pdf(o)) {
                            assert(enc_opt_pdf(o)[0] == b@[i as int]);
                        }
                    }
                }
                None
            }
        },
        None => {
            proof {
                assert forall|o: Option<PdfFileV>|
                    (match o {
                        Option::Some(p) => p.wf(),
                        Option::None => true,
                    }) implies !enc_at(b@, i as int, #[trigger] enc_opt_pdf(o)) by {
                    assert(enc_opt_pdf(o).len() >= 1);
                }
            }
            None
        },
    }
}

#[verifier::rlimit(100)]
proof fn lemma_emp_layout_front(b: Seq<u8>, ev: EmployeeV)
    requires
        b == enc_employee(ev),
    ensures
        enc_at(b, 0, u64_le(ev.nip)),
        enc_at(b, 8, enc_bytes(ev.name)),
        enc_at(b, 16 + ev.name.len() as int, u32_le(ev.age)),
        enc_at(b, 20 + ev.name.len() as int, u32_le(ev.pension_age)),
        enc_at(b, 24 + ev.name.len() as int, u64_le(ev.wage_per_hour)),
        enc_at(b, 32 + ev.name.len() as int, emp_tail5(ev)),
        b.len() == 32 + ev.name.len() + emp_tail5(ev).len(),
{
    lemma_at_whole(b, enc_employee(ev));
    lemma_at_split(b, 0, u64_le(ev.nip), emp_tail1(ev));
    lemma_at_split(b, 8, enc_bytes(ev.name), emp_tail2(ev));
    lemma_at_split(b, 16 + ev.name.len() as int, u32_le(ev.age), emp_tail3(ev));
    lemma_at_split(b, 20 + ev.name.len() as int, u32_le(ev.pension_age), emp_tail4(ev));
    lemma_at_split(b, 24 + ev.name.len() as int, u64_le(ev.wage_per_hour), emp_tail5(ev));
}

proof fn lemma_emp_layout_back(b: Seq<u8>, i: int, ev: EmployeeV)
    requires
        enc_at(b, i, emp_tail5(ev)),
        i + emp_tail5(ev).len() == b.len(),
    ensures
        enc_at(b, i, enc_opt_pdf(ev.sk_file)),
        enc_at(b, i + enc_opt_pdf(ev.sk_file).len(), enc_bytes(ev.wallet_address)),
        enc_at(
            b,
            i + enc_opt_pdf(ev.sk_file).len() + 8 + ev.wallet_address.len(),
            u64_le(ev.created_at),
        ),
        enc_at(
            b,
            i + enc_opt_pdf(ev.sk_file).len() + 16 + ev.wallet_address.len(),
            enc_opt_u64(ev.updated_at),
        ),
        b.len() == i + enc_opt_pdf(ev.sk_file).len() + 16 + ev.wallet_address.len()
            + enc_opt_u64(ev.updated_at).len(),
{
    lemma_at_split(b, i, enc_opt_pdf(ev.sk_file), emp_tail6(ev));
    let o6 = i + enc_opt_pdf(ev.sk_file).len();
    lemma_at_split(b, o6, enc_bytes(ev.wallet_address), emp_tail7(ev));
    lemma_at_split(
        b,
        o6 + 8 + ev.wallet_address.len(),
        u64_le(ev.created_at),
        enc_opt_u64(ev.updated_at),
    );
}

#[verifier::rlimit(100)]
proof fn lemma_emp_layout(b: Seq<u8>, ev: EmployeeV)
    requires
        b == enc_employee(ev),
    ensures
        enc_at(b, 0, u64_le(ev.nip)),
        enc_at(b, 8, enc_bytes(ev.name)),
        enc_at(b, 16 + ev.name.len() as int, u32_le(ev.age)),
        enc_at(b, 20 + ev.name.len() as int, u32_le(ev.pension_age)),
        enc_at(b, 24 + ev.name.len() as int, u64_le(ev.wage_per_hour)),
        enc_at(b, 32 + ev.name.len() as int, enc_opt_pdf(ev.sk_file)),
        enc_at(
            b,
            32 + ev.name.len() + enc_opt_pdf(ev.sk_file).len() as int,
            enc_bytes(ev.wallet_address),
        ),
        enc_at(
            b,
            40 + ev.name.len() + enc_opt_pdf(ev.sk_file).len() + ev.wallet_address.len() as int,
            u64_le(ev.created_at),
        ),
        enc_at(
            b,
            48 + ev.name.len() + enc_opt_pdf(ev.sk_file).len() + ev.wallet_address.len() as int,
            enc_opt_u64(ev.updated_at),
        ),
        b.len() == 48 + ev.name.len() + enc_opt_pdf(ev.sk_file).len() + ev.wallet_address.len()
            + enc_opt_u64(ev.updated_at).len(),
{
    lemma_emp_layout_front(b, ev);
    lemma_emp_layout_back(b, 32 + ev.name.len() as int, ev);
}

impl Employee {
    /// Canonical byte encoding of this record.
    pub fn to_bytes(&self) -> (out: Vec<u8>)
        ensures
            out@ == enc_employee(self@),
    {
        let mut out: Vec<u8> = Vec::new();
        push_u64(&mut out, self.nip);
        push_bytes(&mut out, &self.name);
        push_u32(&mut out, self.age);
        push_u32(&mut out, self.pension_age);
        push_u64(&mut out, self.wage_per_hour);
        push_opt_pdf(&mut out, &self.sk_file);
        push_bytes(&mut out, &self.wallet_address);
        push_u64(&mut out, self.created_at);
        push_opt_u64(&mut out, &self.updated_at);
        proof {
            assert(out@ =~= enc_employee(self@));
        }
        out
    }

    /// Decodes the canonical encoding of a well-formed employee record;
    /// rejects every other byte string.
    pub fn from_bytes(bytes: &Vec<u8>) -> (r: Option<Employee>)
        ensures
            match r {
                Some(e) => e@.wf() && bytes@ == enc_employee(e@),
                None => forall|ev: EmployeeV| ev.wf() ==> bytes@ != #[trigger] enc_employee(ev),
            },
    {
        let (nip, name, age, pension_age, wage_per_hour, j5) = match read_emp_prefix(bytes) {
            Some(p) => p,
            None => {
                return None;
            },
        };
        let (sk_file, j6) = match read_opt_pdf(bytes, j5) {
            Some(p) => p,
            None => {
                proof {
                    emp_fail_sk(bytes@, name@, j5 as int);
                }
                return None;
            },
        };
        let (wallet_address, j7) = match read_bytes(bytes, j6) {
            Some(p) => p,
            None => {
                proof {
                    emp_fail_wallet(bytes@, name@, j5 as int, view_opt_pdf(sk_file), j6 as int);
                }
                return None;
            },
        };
        let (created_at, j8) = match read_u64(bytes, j7) {
            Some(p) => p,
            None => {
                proof {
                    emp_fail_created(
                        bytes@,
                        name@,
                        j5 as int,
                        view_opt_pdf(sk_file),
                        j6 as int,
                        wallet_address@,
                        j7 as int,
                    );
                }
                return None;
            },
        };
        let (updated_at, j9) = match read_opt_u64(bytes, j8) {
            Some(p) => p,
            None => {
                proof {
                    emp_fail_updated(
                        bytes@,
                        name@,
                        j5 as int,
                        view_opt_pdf(sk_file),
                        j6 as int,
                        wallet_address@,
                        j7 as int,
                        j8 as int,
                    );
                }
                return None;
            },
        };
        if j9 != bytes.len() {
            proof {
                emp_fail_trailing(
                    bytes@,
                    name@,
                    j5 as int,
                    view_opt_pdf(sk_file),
                    j6 as int,
                    wallet_address@,
                    j7 as int,
                    j8 as int,
                    updated_at,
                    j9 as int,
                );
            }
            return None;
        }
        let e = Employee {
            nip,
            name,
            age,
            pension_age,
            wage_per_hour,
            sk_file,
            wallet_address,
            created_at,
            updated_at,
        };
        proof {
            lemma_emp_assemble(
                bytes@,
                e@,
                j5 as int,
                j6 as int,
                j7 as int,
                j8 as int,
                j9 as int,
            );
        }
        Some(e)
    }
}

proof fn emp_fail_sk(b: Seq<u8>, name: Seq<u8>, j5: int)
    requires
        name.len() <= 2048,
        enc_at(b, 8, enc_bytes(name)),
        j5 == 32 + name.len(),
        forall|o: Option<PdfFileV>|
            (match o {
                Option::Some(p) => p.wf(),
                Option::None => true,
            }) ==> !enc_at(b, j5, #[trigger] enc_opt_pdf(o)),
    ensures
        forall|ev: EmployeeV| ev.wf() ==> b != #[trigger] enc_employee(ev),
{
    assert forall|ev: EmployeeV| ev.wf() implies b != #[trigger] enc_employee(ev) by {
        if b == enc_employee(ev) {
            lemma_emp_layout(b, ev);
            lemma_bytes_at_agree(b, 8, name, ev.name);
        }
    }
}

proof fn emp_fail_wallet(b: Seq<u8>, name: Seq<u8>, j5: int, skv: Option<PdfFileV>, j6: int)
    requires
        name.len() <= 2048,
        enc_at(b, 8, enc_bytes(name)),
        j5 == 32 + name.len(),
        match skv {
            Option::Some(p) => p.wf(),
            Option::None => true,
        },
        enc_at(b, j5, enc_opt_pdf(skv)),
        j6 == j5 + enc_opt_pdf(skv).len(),
        forall|s: Seq<u8>| s.len() <= 2048 ==> !enc_at(b, j6, #[trigger] enc_bytes(s)),
    ensures
        forall|ev: EmployeeV| ev.wf() ==> b != #[trigger] enc_employee(ev),
{
    assert forall|ev: EmployeeV| ev.wf() implies b != #[trigger] enc_employee(ev) by {
        if b == enc_employee(ev) {
            lemma_emp_layout(b, ev);
            lemma_bytes_at_agree(b, 8, name, ev.name);
            lemma_opt_pdf_at_agree(b, j5, skv, ev.sk_file);
        }
    }
}

proof fn emp_fail_created(
    b: Seq<u8>,
    name: Seq<u8>,
    j5: int,
    skv: Option<PdfFileV>,
    j6: int,
    wallet: Seq<u8>,
    j7: int,
)
    requires
        name.len() <= 2048,
        enc_at(b, 8, enc_bytes(name)),
        j5 == 32 + name.len(),
        match skv {
            Option::Some(p) => p.wf(),
            Option::None => true,
        },
        enc_at(b, j5, enc_opt_pdf(skv)),
        j6 == j5 + enc_opt_pdf(skv).len(),
        wallet.len() <= 2048,
        enc_at(b, j6, enc_bytes(wallet)),
        j7 == j6 + 8 + wallet.len(),
        j7 + 8 > b.len(),
    ensures
        forall|ev: EmployeeV| ev.wf() ==> b != #[trigger] enc_employee(ev),
{
    assert forall|ev: EmployeeV| ev.wf() implies b != #[trigger] enc_employee(ev) by {
        if b == enc_employee(ev) {
            lemma_emp_layout(b, ev);
            lemma_bytes_at_agree(b, 8, name, ev.name);
            lemma_opt_pdf_at_agree(b, j5, skv, ev.sk_file);
            lemma_bytes_at_agree(b, j6, wallet, ev.wallet_address);
        }
    }
}

proof fn emp_fail_updated(
    b: Seq<u8>,
    name: Seq<u8>,
    j5: int,
    skv: Option<PdfFileV>,
    j6: int,
    wallet: Seq<u8>,
    j7: int,
    j8: int,
)
    requires
        name.len() <= 2048,
        enc_at(b, 8, enc_bytes(name)),
        j5 == 32 + name.len(),
        match skv {
            Option::Some(p) => p.wf(),
            Option::None => true,
        },
        enc_at(b, j5, enc_opt_pdf(skv)),
        j6 == j5 + enc_opt_pdf(skv).len(),
        wallet.len() <= 2048,
        enc_at(b, j6, enc_bytes(wallet)),
        j7 == j6 + 8 + wallet.len(),
        j8 == j7 + 8,
        forall|o: Option<u64>| !enc_at(b, j8, #[trigger] enc_opt_u64(o)),
    ensures
        forall|ev: EmployeeV| ev.wf() ==> b != #[trigger] enc_employee(ev),
{
    assert forall|ev: EmployeeV| ev.wf() implies b != #[trigger] enc_employee(ev) by {
        if b == enc_employee(ev) {
            lemma_emp_layout(b, ev);
            lemma_bytes_at_agree(b, 8, name, ev.name);
            lemma_opt_pdf_at_agree(b, j5, skv, ev.sk_file);
            lemma_bytes_at_agree(b, j6, wallet, ev.wallet_address);
        }
    }
}

proof fn emp_fail_trailing(
    b: Seq<u8>,
    name: Seq<u8>,
    j5: int,
    skv: Option<PdfFileV>,
    j6: int,
    wallet: Seq<u8>,
    j7: int,
    j8: int,
    upd: Option<u64>,
    j9: int,
)
    requires
        name.len() <= 2048,
        enc_at(b, 8, enc_bytes(name)),
        j5 == 32 + name.len(),
        match skv {
            Option::Some(p) => p.wf(),
            Option::None => true,
        },
        enc_at(b, j5, enc_opt_pdf(skv)),
        j6 == j5 + enc_opt_pdf(skv).len(),
        wallet.len() <= 2048,
        enc_at(b, j6, enc_bytes(wallet)),
        j7 == j6 + 8 + wallet.len(),
        j8 == j7 + 8,
        enc_at(b, j8, enc_opt_u64(upd)),
        j9 == j8 + enc_opt_u64(upd).len(),
        j9 != b.len(),
    ensures
        forall|ev: EmployeeV| ev.wf() ==> b != #[trigger] enc_employee(ev),
{
    assert forall|ev: EmployeeV| ev.wf() implies b != #[trigger] enc_employee(ev) by {
        if b == enc_employee(ev) {
            lemma_emp_layout(b, ev);
            lemma_bytes_at_agree(b, 8, name, ev.name);
            lemma_opt_pdf_at_agree(b, j5, skv, ev.sk_file);
            lemma_bytes_at_agree(b, j6, wallet, ev.wallet_address);
            lemma_opt_u64_at_agree(b, j8, upd, ev.updated_at);
            assert(b.len() == j9);
        }
    }
}

proof fn lemma_emp_assemble(b: Seq<u8>, e: EmployeeV, j5: int, j6: int, j7: int, j8: int, j9: int)
    requires
        enc_at(b, 0, u64_le(e.nip)),
        enc_at(b, 8, enc_bytes(e.name)),
        enc_at(b, 16 + e.name.len() as int, u32_le(e.age)),
        enc_at(b, 20 + e.name.len() as int, u32_le(e.pension_age)),
        enc_at(b, 24 + e.name.len() as int, u64_le(e.wage_per_hour)),
        j5 == 32 + e.name.len(),
        enc_at(b, j5, enc_opt_pdf(e.sk_file)),
        j6 == j5 + enc_opt_pdf(e.sk_file).len(),
        enc_at(b, j6, enc_bytes(e.wallet_address)),
        j7 == j6 + 8 + e.wallet_address.len(),
        enc_at(b, j7, u64_le(e.created_at)),
        j8 == j7 + 8,
        enc_at(b, j8, enc_opt_u64(e.updated_at)),
        j9 == j8 + enc_opt_u64(e.updated_at).len(),
        j9 == b.len(),
    ensures
        b == enc_employee(e),
{
    lemma_at_join(b, j7, u64_le(e.created_at), enc_opt_u64(e.updated_at));
    lemma_at_join(b, j6, enc_bytes(e.wallet_address), emp_tail7(e));
    lemma_at_join(b, j5, enc_opt_pdf(e.sk_file), emp_tail6(e));
    lemma_at_join(b, 24 + e.name.len() as int, u64_le(e.wage_per_hour), emp_tail5(e));
    lemma_at_join(b, 20 + e.name.len() as int, u32_le(e.pension_age), emp_tail4(e));
    lemma_at_join(b, 16 + e.name.len() as int, u32_le(e.age), emp_tail3(e));
    lemma_at_join(b, 8, enc_bytes(e.name), emp_tail2(e));
    lemma_at_join(b, 0, u64_le(e.nip), emp_tail1(e));
    assert(b =~= enc_employee(e));
}


fn read_emp_prefix(bytes: &Vec<u8>) -> (r: Option<(u64, Vec<u8>, u32, u32, u64, usize)>)
    ensures
        match r {
            Some(p) => {
                &&& p.1@.len() <= 2048
                &&& enc_at(bytes@, 0, u64_le(p.0))
                &&& enc_at(bytes@, 8, enc_bytes(p.1@))
                &&& enc_at(bytes@, 16 + p.1@.len() as int, u32_le(p.2))
                &&& enc_at(bytes@, 20 + p.1@.len() as int, u32_le(p.3))
                &&& enc_at(bytes@, 24 + p.1@.len() as int, u64_le(p.4))
                &&& p.5 == 32 + p.1@.len()
                &&& p.5 <= bytes@.len()
            },
            None => forall|ev: EmployeeV| ev.wf() ==> bytes@ != #[trigger] enc_employee(ev),
        },
{
    let (nip, j1) = match read_u64(bytes, 0) {
        Some(p) => p,
        None => {
            proof {
                assert forall|ev: EmployeeV| ev.wf() implies bytes@ != #[trigger] enc_employee(
                    ev,
                ) by {
                    if bytes@ == enc_employee(ev) {
                        lemma_emp_layout(bytes@, ev);
                    }
                }
            }
            return None;
        },
    };
    let (name, j2) = match read_bytes(bytes, j1) {
        Some(p) => p,
        None => {
            proof {
                assert forall|ev: EmployeeV| ev.wf() implies bytes@ != #[trigger] enc_employee(
                    ev,
                ) by {
                    if bytes@ == enc_employee(ev) {
                        lemma_emp_layout(bytes@, ev);
                    }
                }
            }
            return None;
        },
    };
    let (age, j3) = match read_u32(bytes, j2) {
        Some(p) => p,
        None => {
            proof {
                assert forall|ev: EmployeeV| ev.wf() implies bytes@ != #[trigger] enc_employee(
                    ev,
                ) by {
                    if bytes@ == enc_employee(ev) {
                        lemma_emp_layout(bytes@, ev);
                        lemma_bytes_at_agree(bytes@, 8, name@, ev.name);
                    }
                }
            }
            return None;
        },
    };
    let (pension_age, j4) = match read_u32(bytes, j3) {
        Some(p) => p,
        None => {
            proof {
                assert forall|ev: EmployeeV| ev.wf() implies bytes@ != #[trigger] enc_employee(
                    ev,
                ) by {
                    if bytes@ == enc_employee(ev) {
                        lemma_emp_layout(bytes@, ev);
                        lemma_bytes_at_agree(bytes@, 8, name@, ev.name);
                    }
                }
            }
            return None;
        },
    };
    let (wage_per_hour, j5) = match read_u64(bytes, j4) {
        Some(p) => p,
        None => {
            proof {
                assert forall|ev: EmployeeV| ev.wf() implies bytes@ != #[trigger] enc_employee(
                    ev,
                ) by {
                    if bytes@ == enc_employee(ev) {
                        lemma_emp_layout(bytes@, ev);
                        lemma_bytes_at_agree(bytes@, 8, name@, ev.name);
                    }
                }
            }
            return None;
        },
    };
    Some((nip, name, age, pension_age, wage_per_hour, j5))
}

impl Attendance {
    /// Canonical byte encoding of this record.
    pub fn to_bytes(&self) -> (out: Vec<u8>)
        ensures
            out@ == enc_attendance(*self),
    {
        let mut out: Vec<u8> = Vec::new();
        push_u64(&mut out, self.check_in);
        push_u64(&mut out, self.check_out);
        push_u64(&mut out, self.total_hours);
        push_u128(&mut out, self.daily_wage);
        proof {
            assert(out@ =~= enc_attendance(*self));
        }
        out
    }

    /// Decodes the canonical encoding of an attendance record; rejects every
    /// other byte string.
    #[verifier::rlimit(100)]
    pub fn from_bytes(bytes: &Vec<u8>) -> (r: Option<Attendance>)
        ensures
            match r {
                Some(a) => bytes@ == enc_attendance(a),
                None => forall|a: Attendance| bytes@ != #[trigger] enc_attendance(a),
            },
    {
        let (check_in, j1) = match read_u64(bytes, 0) {
            Some(p) => p,
            None => {
                proof {
                    assert forall|a: Attendance| bytes@ != #[trigger] enc_attendance(a) by {
                        if bytes@ == enc_attendance(a) {
                            lemma_at_whole(bytes@, enc_attendance(a));
                            lemma_at_split(bytes@, 0, u64_le(a.check_in), att_tail1(a));
                        }
                    }
                }
                return None;
            },
        };
        let (check_out, j2) = match read_u64(bytes, j1) {
            Some(p) => p,
            None => {
                proof {
                    assert forall|a: Attendance| bytes@ != #[trigger] enc_attendance(a) by {
                        if bytes@ == enc_attendance(a) {
                            lemma_at_whole(bytes@, enc_attendance(a));
                            lemma_at_split(bytes@, 0, u64_le(a.check_in), att_tail1(a));
                            lemma_at_split(bytes@, 8, u64_le(a.check_out), att_tail2(a));
                        }
                    }
                }
                return None;
            },
        };
        let (total_hours, j3) = match read_u64(bytes, j2) {
            Some(p) => p,
            None => {
                proof {
                    assert forall|a: Attendance| bytes@ != #[trigger] enc_attendance(a) by {
                        if bytes@ == enc_attendance(a) {
                            lemma_at_whole(bytes@, enc_attendance(a));
                            lemma_at_split(bytes@, 0, u64_le(a.check_in), att_tail1(a));
                            lemma_at_split(bytes@, 8, u64_le(a.check_out), att_tail2(a));
                            lemma_at_split(bytes@, 16, u64_le(a.total_hours), u128_le(
                                a.daily_wage,
                            ));
                        }
                    }
                }
                return None;
            },
        };
        let (daily_wage, j4) = match read_u128(bytes, j3) {
            Some(p) => p,
            None => {
                proof {
                    assert forall|a: Attendance| bytes@ != #[trigger] enc_attendance(a) by {
                        if bytes@ == enc_attendance(a) {
                            lemma_at_whole(bytes@, enc_attendance(a));
                            lemma_at_split(bytes@, 0, u64_le(a.check_in), att_tail1(a));
                            lemma_at_split(bytes@, 8, u64_le(a.check_out), att_tail2(a));
                            lemma_at_split(bytes@, 16, u64_le(a.total_hours), u128_le(
                                a.daily_wage,
                            ));
                        }
                    }
                }
                return None;
            },
        };
        if j4 != bytes.len() {
            proof {
                assert forall|a: Attendance| bytes@ != #[trigger] enc_attendance(a) by {
                    if bytes@ == enc_attendance(a) {
                        lemma_at_whole(bytes@, enc_attendance(a));
                        assert(bytes@.len() == 40);
                    }
                }
            }
            return None;
        }
        let a = Attendance { check_in, check_out, total_hours, daily_wage };
        proof {
            lemma_at_join(bytes@, 16, u64_le(total_hours), u128_le(daily_wage));
            lemma_at_join(bytes@, 8, u64_le(check_out), att_tail2(a));
            lemma_at_join(bytes@, 0, u64_le(check_in), att_tail1(a));
            assert(bytes@ =~= enc_attendance(a));
        }
        Some(a)
    }
}

impl PayrollApproval {
    /// Canonical byte encoding of this record.
    pub fn to_bytes(&self) -> (out: Vec<u8>)
        ensures
            out@ == enc_approval(self@),
    {
        let mut out: Vec<u8> = Vec::new();
        push_u64(&mut out, self.employee_nip);
        push_u64(&mut out, self.attendance_date);
        push_u128(&mut out, self.wage_amount);
        push_status(&mut out, self.status);
        push_bytes(&mut out, &self.manager_wallet);
        proof {
            assert(out@ =~= enc_approval(self@));
        }
        out
    }

    /// Decodes the canonical encoding of a well-formed approval record;
    /// rejects every other byte string.
    #[verifier::rlimit(100)]
    pub fn from_bytes(bytes: &Vec<u8>) -> (r: Option<PayrollApproval>)
        ensures
            match r {
                Some(p) => p@.wf() && bytes@ == enc_approval(p@),
                None => forall|pv: PayrollApprovalV| pv.wf() ==> bytes@ != #[trigger] enc_approval(
                    pv,
                ),
            },
    {
        let (employee_nip, j1) = match read_u64(bytes, 0) {
            Some(p) => p,
            None => {
                proof {
                    assert forall|pv: PayrollApprovalV| pv.wf() implies bytes@
                        != #[trigger] enc_approval(pv) by {
                        if bytes@ == enc_approval(pv) {
                            lemma_at_whole(bytes@, enc_approval(pv));
                            lemma_at_split(bytes@, 0, u64_le(pv.employee_nip), app_tail1(pv));
                        }
                    }
                }
                return None;
            },
        };
        let (attendance_date, j2) = match read_u64(bytes, j1) {
            Some(p) => p,
            None => {
                proof {
                    assert forall|pv: PayrollApprovalV| pv.wf() implies bytes@
                        != #[trigger] enc_approval(pv) by {
                        if bytes@ == enc_approval(pv) {
                            lemma_at_whole(bytes@, enc_approval(pv));
                            lemma_at_split(bytes@, 0, u64_le(pv.employee_nip), app_tail1(pv));
                            lemma_at_split(bytes@, 8, u64_le(pv.attendance_date), app_tail2(pv));
                        }
                    }
                }
                return None;
            },
        };
        let (wage_amount, j3) = match read_u128(bytes, j2) {
            Some(p) => p,
            None => {
                proof {
                    assert forall|pv: PayrollApprovalV| pv.wf() implies bytes@
                        != #[trigger] enc_approval(pv) by {
                        if bytes@ == enc_approval(pv) {
                            lemma_at_whole(bytes@, enc_approval(pv));
                            lemma_at_split(bytes@, 0, u64_le(pv.employee_nip), app_tail1(pv));
                            lemma_at_split(bytes@, 8, u64_le(pv.attendance_date), app_tail2(pv));
                            lemma_at_split(bytes@, 16, u128_le(pv.wage_amount), app_tail3(pv));
                        }
                    }
                }
                return None;
            },
        };
        let (status, j4) = match read_status(bytes, j3) {
            Some(p) => p,
            None => {
                proof {
                    assert forall|pv: PayrollApprovalV| pv.wf() implies bytes@
                        != #[trigger] enc_approval(pv) by {
                        if bytes@ == enc_approval(pv) {
                            lemma_at_whole(bytes@, enc_approval(pv));
                            lemma_at_split(bytes@, 0, u64_le(pv.employee_nip), app_tail1(pv));
                            lemma_at_split(bytes@, 8, u64_le(pv.attendance_date), app_tail2(pv));
                            lemma_at_split(bytes@, 16, u128_le(pv.wage_amount), app_tail3(pv));
                            lemma_at_split(bytes@, 32, enc_status(pv.status), enc_bytes(
                                pv.manager_wallet,
                            ));
                        }
                    }
                }
                return None;
            },
        };
        let (manager_wallet, j5) = match read_bytes(bytes, j4) {
            Some(p) => p,
            None => {
                proof {
                    assert forall|pv: PayrollApprovalV| pv.wf() implies bytes@
                        != #[trigger] enc_approval(pv) by {
                        if bytes@ == enc_approval(pv) {
                            lemma_at_whole(bytes@, enc_approval(pv));
                            lemma_at_split(bytes@, 0, u64_le(pv.employee_nip), app_tail1(pv));
                            lemma_at_split(bytes@, 8, u64_le(pv.attendance_date), app_tail2(pv));
                            lemma_at_split(bytes@, 16, u128_le(pv.wage_amount), app_tail3(pv));
                            lemma_at_split(bytes@, 32, enc_status(pv.status), enc_bytes(
                                pv.manager_wallet,
                            ));
                        }
                    }
                }
                return None;
            },
        };
        if j5 != bytes.len() {
            proof {
                assert forall|pv: PayrollApprovalV| pv.wf() implies bytes@
                    != #[trigger] enc_approval(pv) by {
                    if bytes@ == enc_approval(pv) {
                        lemma_at_whole(bytes@, enc_approval(pv));
                        lemma_at_split(bytes@, 0, u64_le(pv.employee_nip), app_tail1(pv));
                        lemma_at_split(bytes@, 8, u64_le(pv.attendance_date), app_tail2(pv));
                        lemma_at_split(bytes@, 16, u128_le(pv.wage_amount), app_tail3(pv));
                        lemma_at_split(bytes@, 32, enc_status(pv.status), enc_bytes(
                            pv.manager_wallet,
                        ));
                        lemma_bytes_at_agree(bytes@, 33, manager_wallet@, pv.manager_wallet);
                        assert(bytes@.len() == j5);
                    }
                }
            }
            return None;
        }
        let p = PayrollApproval {
            employee_nip,
            attendance_date,
            wage_amount,
            status,
            manager_wallet,
        };
        proof {
            lemma_at_join(bytes@, 32, enc_status(status), enc_bytes(manager_wallet@));
            lemma_at_join(bytes@, 16, u128_le(wage_amount), app_tail3(p@));
            lemma_at_join(bytes@, 8, u64_le(attendance_date), app_tail2(p@));
            lemma_at_join(bytes@, 0, u64_le(employee_nip), app_tail1(p@));
            assert(bytes@ =~= enc_approval(p@));
        }
        Some(p)
    }
}

/// The employee encoding is one-to-one over well-formed records.
pub proof fn lemma_enc_employee_injective(e1: EmployeeV, e2: EmployeeV)
    requires
        e1.wf(),
        e2.wf(),
        enc_employee(e1) == enc_employee(e2),
    ensures
        e1 == e2,
{
    let bb = enc_employee(e1);
    assert(bb.subrange(0, bb.len() as int) =~= bb);
    lemma_employee_at_agree(bb, 0, e1, e2);
}

/// The attendance encoding is one-to-one.
pub proof fn lemma_enc_attendance_injective(a1: Attendance, a2: Attendance)
    requires
        enc_attendance(a1) == enc_attendance(a2),
    ensures
        a1 == a2,
{
    let bb = enc_attendance(a1);
    assert(bb.subrange(0, bb.len() as int) =~= bb);
    lemma_attendance_at_agree(bb, 0, a1, a2);
}

/// The approval encoding is one-to-one over well-formed records.
pub proof fn lemma_enc_approval_injective(p1: PayrollApprovalV, p2: PayrollApprovalV)
    requires
        p1.wf(),
        p2.wf(),
        enc_approval(p1) == enc_approval(p2),
    ensures
        p1 == p2,
{
    let bb = enc_approval(p1);
    assert(bb.subrange(0, bb.len() as int) =~= bb);
    lemma_approval_at_agree(bb, 0, p1, p2);
}

} // verus!
