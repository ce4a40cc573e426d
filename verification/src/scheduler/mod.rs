//! Trigger parsing (intervals, cron expressions, fixed times), the daemon's
//! tick decisions, the job records it keeps and the retry policy.

pub mod error;
pub mod interval;
pub mod cron;
pub mod at;
pub mod persist;
pub mod retry;
