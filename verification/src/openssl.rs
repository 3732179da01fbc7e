//! The report itself: what was fetched for one host, the organisation named in
//! it, the days that remain, and the table that shows them.

pub mod organisation;
pub mod remaining_days;
pub mod sorting;
pub mod table;
