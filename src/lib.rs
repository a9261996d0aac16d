//! Reconciliation of benchmark containers. A snapshot's containers are grouped
//! by workload category, the newest container of each category is kept, and the
//! others are planned for removal; the outcomes of the removals make the report.

pub mod record;
pub mod classify;
pub mod select;
pub mod reconcile;
pub mod laws;
pub mod cron;
pub mod forward;
