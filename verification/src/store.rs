//! Persistent backing for the service: a monotonic id counter and three
//! ordered key-to-bytes tables from `ic_stable_structures`, living in one
//! managed memory. The tables are modelled as maps from keys to byte strings.

use vstd::prelude::*;

use ic_stable_structures::memory_manager::{MemoryId, MemoryManager, VirtualMemory};
use ic_stable_structures::{Cell, DefaultMemoryImpl, StableBTreeMap};

verus! {

/// The durable state: an id counter and one table per record type. Employee
/// records are keyed by id; attendance and approval records by a packed
/// (id, day) key.
#[verifier::external_body]
pub struct StableStores {
    counter: Cell<u64, VirtualMemory<DefaultMemoryImpl>>,
    employees: StableBTreeMap<u64, Vec<u8>, VirtualMemory<DefaultMemoryImpl>>,
    attendance: StableBTreeMap<u128, Vec<u8>, VirtualMemory<DefaultMemoryImpl>>,
    approvals: StableBTreeMap<u128, Vec<u8>, VirtualMemory<DefaultMemoryImpl>>,
}

/// The value held by the id counter.
pub uninterp spec fn counter_of(s: StableStores) -> u64;

/// The contents of the employee table.
pub uninterp spec fn employee_table(s: StableStores) -> Map<u64, Seq<u8>>;

/// The contents of the attendance table.
pub uninterp spec fn attendance_table(s: StableStores) -> Map<u128, Seq<u8>>;

/// The contents of the approval table.
pub uninterp spec fn approval_table(s: StableStores) -> Map<u128, Seq<u8>>;

impl StableStores {
    /// Relies on `MemoryManager::init`, `Cell::init` and `StableBTreeMap::init`
    /// from `ic_stable_structures`: on this build `DefaultMemoryImpl::default()`
    /// is a fresh in-memory region, so the counter starts at the default given
    /// here (zero) and the three tables start empty.
    #[verifier::external_body]
    pub fn init() -> (s: StableStores)
        ensures
            counter_of(s) == 0,
            forall|k: u64| !employee_table(s).contains_key(k),
            forall|k: u128| !attendance_table(s).contains_key(k),
            forall|k: u128| !approval_table(s).contains_key(k),
    {
        let manager = MemoryManager::init(DefaultMemoryImpl::default());
        StableStores {
            counter: Cell::init(manager.get(MemoryId::new(0)), 0u64),
            employees: StableBTreeMap::init(manager.get(MemoryId::new(1))),
            attendance: StableBTreeMap::init(manager.get(MemoryId::new(2))),
            approvals: StableBTreeMap::init(manager.get(MemoryId::new(3))),
        }
    }

    /// Relies on `Cell::get`: returns the stored counter value.
    #[verifier::external_body]
    pub fn counter_get(&self) -> (r: u64)
        ensures
            r == counter_of(*self),
    {
        *self.counter.get()
    }

    /// Relies on `Cell::set`: stores the new counter value and returns the
    /// value it replaces; the tables are untouched.
    #[verifier::external_body]
    pub fn counter_set(&mut self, v: u64) -> (r: u64)
        ensures
            r == counter_of(*old(self)),
            counter_of(*final(self)) == v,
            employee_table(*final(self)) == employee_table(*old(self)),
            attendance_table(*final(self)) == attendance_table(*old(self)),
            approval_table(*final(self)) == approval_table(*old(self)),
    {
        self.counter.set(v)
    }

    /// Relies on `StableBTreeMap::get`: returns a copy of the bytes stored
    /// under the key, if any.
    #[verifier::external_body]
    pub fn employee_get(&self, k: u64) -> (r: Option<Vec<u8>>)
        ensures
            match r {
                Some(v) => employee_table(*self).contains_key(k) && v@ == employee_table(*self)[k],
                None => !employee_table(*self).contains_key(k),
            },
    {
        self.employees.get(&k)
    }

    /// Relies on `StableBTreeMap::insert`: stores the bytes under the key,
    /// returning what the key held before; the rest of the state is untouched.
    #[verifier::external_body]
    pub fn employee_insert(&mut self, k: u64, v: Vec<u8>) -> (r: Option<Vec<u8>>)
        ensures
            employee_table(*final(self)) == employee_table(*old(self)).insert(k, v@),
            counter_of(*final(self)) == counter_of(*old(self)),
            attendance_table(*final(self)) == attendance_table(*old(self)),
            approval_table(*final(self)) == approval_table(*old(self)),
            match r {
                Some(p) => employee_table(*old(self)).contains_key(k) && p@ == employee_table(
                    *old(self),
                )[k],
                None => !employee_table(*old(self)).contains_key(k),
            },
    {
        self.employees.insert(k, v)
    }

    /// Relies on `StableBTreeMap::get`: returns a copy of the bytes stored
    /// under the key, if any.
    #[verifier::external_body]
    pub fn attendance_get(&self, k: u128) -> (r: Option<Vec<u8>>)
        ensures
            match r {
                Some(v) => attendance_table(*self).contains_key(k) && v@ == attendance_table(
                    *self,
                )[k],
                None => !attendance_table(*self).contains_key(k),
            },
    {
        self.attendance.get(&k)
    }

    /// Relies on `StableBTreeMap::insert`: stores the bytes under the key,
    /// returning what the key held before; the rest of the state is untouched.
    #[verifier::external_body]
    pub fn attendance_insert(&mut self, k: u128, v: Vec<u8>) -> (r: Option<Vec<u8>>)
        ensures
            attendance_table(*final(self)) == attendance_table(*old(self)).insert(k, v@),
            counter_of(*final(self)) == counter_of(*old(self)),
            employee_table(*final(self)) == employee_table(*old(self)),
            approval_table(*final(self)) == approval_table(*old(self)),
            match r {
                Some(p) => attendance_table(*old(self)).contains_key(k) && p@ == attendance_table(
                    *old(self),
                )[k],
                None => !attendance_table(*old(self)).contains_key(k),
            },
    {
        self.attendance.insert(k, v)
    }

    /// Relies on `StableBTreeMap::get`: returns a copy of the bytes stored
    /// under the key, if any.
    #[verifier::external_body]
    pub fn approval_get(&self, k: u128) -> (r: Option<Vec<u8>>)
        ensures
            match r {
                Some(v) => approval_table(*self).contains_key(k) && v@ == approval_table(*self)[k],
                None => !approval_table(*self).contains_key(k),
            },
    {
        self.approvals.get(&k)
    }

    /// Relies on `StableBTreeMap::insert`: stores the bytes under the key,
    /// returning what the key held before; the rest of the state is untouched.
    #[verifier::external_body]
    pub fn approval_insert(&mut self, k: u128, v: Vec<u8>) -> (r: Option<Vec<u8>>)
        ensures
            approval_table(*final(self)) == approval_table(*old(self)).insert(k, v@),
            counter_of(*final(self)) == counter_of(*old(self)),
            employee_table(*final(self)) == employee_table(*old(self)),
            attendance_table(*final(self)) == attendance_table(*old(self)),
            match r {
                Some(p) => approval_table(*old(self)).contains_key(k) && p@ == approval_table(
                    *old(self),
                )[k],
                None => !approval_table(*old(self)).contains_key(k),
            },
    {
        self.approvals.insert(k, v)
    }
}

} // verus!
