//! What was fetched for one host, and the days that remain until its
//! certificate expires.

use vstd::prelude::*;
use vstd::string::*;
use crate::calendar::{date_format, days_until, parse_day, parsed_day, today};
use crate::text::{from_chars, split, split_text, texts, to_chars, trim, trim_text, words, words_of};

verus! {

/// What was fetched for one host: the line that gives the end of the
/// certificate's validity (`notAfter=Jan  5 12:00:00 2031 GMT`), the
/// diagnostics of the fetch (empty where it succeeded), the organisation
/// that issued the certificate, and the host's name.
#[derive(Debug, Clone, PartialEq, Eq)]
pub struct RemainingDays {
    pub stdout: String,
    pub stderr: String,
    pub organisation: String,
    pub domain: String,
}

/// What was fetched for one host, as texts.
pub struct Fetched {
    pub stdout: Seq<char>,
    pub stderr: Seq<char>,
    pub organisation: Seq<char>,
    pub domain: Seq<char>,
}

impl View for RemainingDays {
    type V = Fetched;

    open spec fn view(&self) -> Fetched {
        Fetched {
            stdout: self.stdout@,
            stderr: self.stderr@,
            organisation: self.organisation@,
            domain: self.domain@,
        }
    }
}

/// Why a host has no row in the report: its certificate could not be
/// fetched, or what was fetched could not be read.
#[derive(Debug, Clone, PartialEq, Eq)]
pub enum Failure {
    Fetch { hostname: String, message: String },
    Parse { hostname: String, message: String },
}

/// A failure, as texts.
pub enum FailureView {
    Fetch { hostname: Seq<char>, message: Seq<char> },
    Parse { hostname: Seq<char>, message: Seq<char> },
}

impl View for Failure {
    type V = FailureView;

    open spec fn view(&self) -> FailureView {
        match self {
            Failure::Fetch { hostname, message } => FailureView::Fetch {
                hostname: hostname@,
                message: message@,
            },
            Failure::Parse { hostname, message } => FailureView::Parse {
                hostname: hostname@,
                message: message@,
            },
        }
    }
}

/// The message for an output that gives no date of expiry.
pub open spec fn missing_date() -> Seq<char> {
    "missing expiration date"@
}

/// The message for a date of expiry that is no date.
pub open spec fn unreadable_date() -> Seq<char> {
    "unparseable expiration date"@
}

/// The date of expiry in the output `notAfter=Jan  5 12:00:00 2031 GMT`, as
/// the calendar reads it: `2031Jan5`.
///
/// The output is trimmed; the date is looked for behind its first `=` (and
/// in front of the next one). Of the words found there the fourth is the
/// year, the first the month and the second the day. There is no date where
/// the output holds no `=` or fewer than four words follow it.
pub open spec fn expiry_text(stdout: Seq<char>) -> Option<Seq<char>> {
    let parts = split(trim(stdout), seq!['=']);
    if parts.len() >= 2 {
        let named = words(parts[1]);
        if named.len() >= 4 {
            Some(named[3] + named[0] + named[1])
        } else {
            None
        }
    } else {
        None
    }
}

/// The days that remain on the day `today` for a certificate with the given
/// output, or the message that says why they cannot be told.
pub open spec fn remaining_on(stdout: Seq<char>, today: int) -> Result<int, Seq<char>> {
    match expiry_text(stdout) {
        None => Err(missing_date()),
        Some(text) => match parsed_day(text, date_format()) {
            None => Err(unreadable_date()),
            Some(expiry) => Ok(expiry - today),
        },
    }
}

/// `result` is what reading the fetched output on the day `today` gives.
pub open spec fn is_parsed_on(fetched: Fetched, today: int, result: Result<i64, Failure>) -> bool {
    match result {
        Ok(days) => remaining_on(fetched.stdout, today) == Ok::<int, Seq<char>>(days as int),
        Err(failure) => match remaining_on(fetched.stdout, today) {
            Ok(_) => false,
            Err(message) => failure@ == (FailureView::Parse { hostname: fetched.domain, message }),
        },
    }
}

/// What was fetched for a host, from the two outputs of the command that
/// read its certificate. The diagnostics are trimmed: a command that wrote
/// nothing but white space to them has not failed.
pub fn cmd_output(stdout: String, stderr: String, organisation: String, domain: String) -> (fetched:
    RemainingDays)
    ensures
        fetched@ == (Fetched {
            stdout: stdout@,
            stderr: trim(stderr@),
            organisation: organisation@,
            domain: domain@,
        }),
{
    let stderr = from_chars(&trim_text(&to_chars(stderr.as_str())));
    RemainingDays::new(stdout, stderr, organisation, domain)
}

/// The date of expiry that an output names, as the calendar reads it.
pub fn expiry_date_text(stdout: &str) -> (text: Option<String>)
    ensures
        match text {
            Some(date) => expiry_text(stdout@) == Some(date@),
            None => expiry_text(stdout@) is None,
        },
{
    proof {
        reveal_strlit("=");
    }
    let equals = to_chars("=");
    assert(equals@ =~= seq!['=']);
    let parts = split_text(&trim_text(&to_chars(stdout)), &equals);
    if parts.len() < 2 {
        return None;
    }
    assert(parts@[1]@ == texts(parts@)[1]);
    let named = words_of(&parts[1]);
    if named.len() < 4 {
        return None;
    }
    assert(named@[0]@ == texts(named@)[0]);
    assert(named@[1]@ == texts(named@)[1]);
    assert(named@[3]@ == texts(named@)[3]);
    let mut date = from_chars(&named[3]);
    date.append(from_chars(&named[0]).as_str());
    date.append(from_chars(&named[1]).as_str());
    Some(date)
}

impl RemainingDays {
    pub fn new(stdout: String, stderr: String, organisation: String, domain: String) -> (fetched:
        RemainingDays)
        ensures
            fetched == (RemainingDays { stdout, stderr, organisation, domain }),
    {
        RemainingDays { stdout, stderr, organisation, domain }
    }

    /// The days that remain on the day `today` until the certificate
    /// expires: the number of the day of expiry less that of `today`. A
    /// certificate that has expired has a negative number of days.
    ///
    /// Fails with `Failure::Parse` where the output gives no date of expiry,
    /// or one that is no date.
    pub fn parse_on(&self, today: i32) -> (result: Result<i64, Failure>)
        ensures
            is_parsed_on(self@, today as int, result),
    {
        match expiry_date_text(self.stdout.as_str()) {
            None => Err(
                Failure::Parse {
                    hostname: self.domain.clone(),
                    message: "missing expiration date".to_string(),
                },
            ),
            Some(date) => {
                proof {
                    reveal_strlit("%Y%b%d");
                }
                assert("%Y%b%d"@ =~= date_format());
                match parse_day(date.as_str(), "%Y%b%d") {
                    None => Err(
                        Failure::Parse {
                            hostname: self.domain.clone(),
                            message: "unparseable expiration date".to_string(),
                        },
                    ),
                    Some(expiry) => Ok(days_until(expiry, today)),
                }
            },
        }
    }

    /// The days that remain today, by the clock and the time zone of this
    /// machine, until the certificate expires. The result is that of
    /// `parse_on` for the day that the clock showed.
    pub fn parse(&self) -> (result: Result<i64, Failure>)
        ensures
            exists|day: i32| is_parsed_on(self@, day as int, result),
    {
        let day = today();
        let result = self.parse_on(day);
        assert(is_parsed_on(self@, day as int, result));
        result
    }
}

} // verus!
