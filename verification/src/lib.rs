//! A small library of cron scheduling, a primality test and list comprehensions.

pub mod comprehension;
pub mod cron;
pub mod numbers;
