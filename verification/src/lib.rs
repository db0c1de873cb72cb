//! A small payroll record-keeping library: employees, daily attendance and a
//! payroll-approval workflow, persisted in stable key-value tables.
//!
//! Unit conventions, chosen once for the whole crate:
//! - timestamps are milliseconds; a calendar day is `timestamp / MS_PER_DAY`;
//! - `wage_per_hour` is in minor currency units per hour;
//! - `total_hours` is stored scaled by `MS_PER_HOUR`, i.e. as the worked
//!   milliseconds, so one full hour is the value `3_600_000`;
//! - `daily_wage` (and `wage_amount`) carry the exact product
//!   `total_hours * wage_per_hour`, i.e. minor units scaled by `MS_PER_HOUR`.

pub mod codec;
pub mod records;
pub mod service;
pub mod store;
pub mod wallet;
