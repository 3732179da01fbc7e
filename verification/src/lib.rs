//! Reporting on the expiry of TLS certificates: the days that remain for each
//! host, the organisation that issued its certificate, and an aligned table of
//! both. Fetching certificates is left to the caller; this crate holds the
//! rules that turn what was fetched into a report.

pub mod calendar;
pub mod input;
pub mod report;
pub mod text;
pub mod openssl;
