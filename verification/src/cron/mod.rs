//! A cron job implementation: parsing of cron strings, the computation of the
//! next time a cron string allows, jobs and a scheduler.

pub mod civil;
pub mod job;
pub mod parser;
pub mod scheduler;
mod text;

pub use civil::{Date, DateTime, Time};
pub use job::Job;
pub use parser::{CronParsingError, CronSection, CronTime};
pub use scheduler::{Initialized, Scheduler, Uninitialized};
