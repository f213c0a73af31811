//! Assignment of publishers to recurring shifts under capacity, role and
//! gender quotas, availability, absences, co-assignment relationships and
//! long-horizon fairness.
//!
//! The store ([`store`], [`transfer`]) holds the data and lists it in order
//! ([`order`]); dates and weekdays come from [`calendar`] and [`weekdays`].
//! A run ([`driver`])
//! goes through the days of a range; for each schedule of the weekday it
//! builds the candidate pool, scores the candidates ([`scoring`],
//! [`fairness`], [`ranking`]), selects greedily ([`selection`]), repairs the
//! selection ([`repair`]) and stores the shift. What holds of every planned
//! shift and of every run is proved in [`guarantees`] and
//! [`run_guarantees`].

pub mod calendar;
pub mod counting;
pub mod driver;
pub mod fairness;
pub mod guarantees;
pub mod locale;
pub mod order;
pub mod ranking;
pub mod repair;
pub mod roster;
pub mod run_guarantees;
pub mod scoring;
pub mod selection;
pub mod store;
pub mod table;
pub mod text;
pub mod transfer;
pub mod weekdays;
