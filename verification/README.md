# tobys_lib

A small library, verified with Verus:

- `cron`: parsing of cron strings (`CronSection`, `CronTime`), writing them
  back, the next time a cron time allows (`CronTime::get_next_time`), jobs and
  a scheduler that hands out the jobs that are due. Calendar arithmetic is done
  by `jiff` behind trusted wrappers in `cron/civil.rs`.
- `numbers`: the Miller-Rabin probable prime test on natural numbers of any
  size (`BigNat`), with the big number arithmetic of `num-bigint` and the random
  bases of `rand` behind trusted wrappers.
- `comprehension`: Python style list comprehensions as functions.

`src/` is the verified library; the laws it proves are the `law_*` proof
functions. `app/` holds what needs the clock, an async runtime, a random
generator of the caller's choice, `Display` or `std::error::Error`.
