//! A terminal contribution calendar: the trailing year of commits laid out
//! week by week and weekday by weekday, with month labels over the weeks in
//! which each month begins.
pub mod calendar;
pub mod date;
pub mod labels;
pub mod tally;
