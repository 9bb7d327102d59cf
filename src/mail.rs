//! Capture records and the options they were captured under.
use vstd::prelude::*;

use crate::body::MailBody;
use crate::naming::{
    decimal, is_record_name, lemma_file_name_is_record_name, lemma_name_order_follows_time,
    lemma_names_differ_in_time, lex_lt, make_file_name, record_file_name,
};

verus! {

/// Command-line options of the capturing program, kept in every record.
#[derive(Clone, Debug, PartialEq, Eq)]
pub struct CliOptions {
    /// Non-standard debug output (trapmail-specific debug info on standard error).
    pub debug: bool,
    /// Ignore dots alone on lines by themselves in the incoming message.
    pub ignore_dots: bool,
    /// Read the message for the recipient list.
    pub inline_recipients: bool,
    /// Further command-line arguments, usually recipient addresses.
    pub options: Vec<String>,
    /// Ignore everything else and show the contents of this record file instead.
    pub dump: Option<String>,
    /// Option settings such as `foo=bar`.
    pub option: Vec<String>,
    /// The envelope sender of the mail.
    pub sender: String,
    /// The mail store path, overriding the environment.
    pub store_path: Option<String>,
}

/// A captured ("sent") mail.
#[derive(Clone, Debug, PartialEq, Eq)]
pub struct Mail {
    /// The command-line options at the time of the call.
    pub cli_options: CliOptions,
    /// The id of the process that stored this mail.
    pub pid: i32,
    /// The id of the parent of that process.
    pub ppid: i32,
    /// The raw body of the call.
    pub body: MailBody,
    /// Microseconds since the UNIX epoch when the mail arrived.
    pub timestamp_us: u128,
}

impl Mail {
    /// The file name of this record.
    pub open spec fn spec_file_name(&self) -> Seq<char> {
        record_file_name(self.timestamp_us as nat, self.ppid as int, self.pid as int)
    }

    /// Assemble a record from its parts: the options, the raw body, the capture time in
    /// microseconds since the epoch, the capturing process and its parent.
    pub fn from_parts(
        cli_options: CliOptions,
        raw_body: Vec<u8>,
        timestamp_us: u128,
        pid: i32,
        ppid: i32,
    ) -> (r: Mail)
        ensures
            r.cli_options == cli_options,
            r.body.captures(raw_body@),
            r.timestamp_us == timestamp_us,
            r.pid == pid,
            r.ppid == ppid,
    {
        Mail { cli_options, pid, ppid, body: MailBody::from_raw(raw_body), timestamp_us }
    }

    /// Capture a mail now, from the calling process.
    ///
    /// The timestamp names the record file together with the two process ids, so a caller
    /// that captures several mails in a row pauses for about a microsecond before each call:
    /// a heuristic against two records of one process sharing a timestamp, not a guarantee.
    ///
    /// `None` when the system clock reports a time before the UNIX epoch.
    pub fn new(cli_options: CliOptions, raw_body: Vec<u8>) -> (r: Option<Mail>)
        ensures
            r matches Some(m) ==> m.cli_options == cli_options && m.body.captures(raw_body@)
                && m.pid >= 0 && m.ppid >= 0 && is_record_name(m.spec_file_name()),
    {
        match micros_since_epoch() {
            Some(timestamp_us) => {
                let m = Mail::from_parts(
                    cli_options,
                    raw_body,
                    timestamp_us,
                    current_pid(),
                    parent_pid(),
                );
                proof {
                    lemma_file_name_is_record_name(
                        m.timestamp_us as nat,
                        m.ppid as int,
                        m.pid as int,
                    );
                }
                Some(m)
            },
            None => None,
        }
    }

    /// The (pathless) file name of this record: `trapmail_<timestamp_us>_<ppid>_<pid>.json`.
    pub fn file_name(&self) -> (r: String)
        ensures
            r@ == self.spec_file_name(),
    {
        make_file_name(self.timestamp_us, self.ppid, self.pid)
    }
}

/// Of two mails captured by one process with one parent, the later has a file name of its
/// own, so storing it never overwrites the earlier; where the two timestamps have as many
/// digits, the earlier name also sorts first.
pub proof fn lemma_later_capture_names(m1: Mail, m2: Mail)
    requires
        m1.pid == m2.pid,
        m1.ppid == m2.ppid,
        m1.timestamp_us < m2.timestamp_us,
    ensures
        m1.spec_file_name() != m2.spec_file_name(),
        decimal(m1.timestamp_us as nat).len() == decimal(m2.timestamp_us as nat).len() ==> lex_lt(
            m1.spec_file_name(),
            m2.spec_file_name(),
        ),
{
    lemma_names_differ_in_time(
        m1.timestamp_us as nat,
        m2.timestamp_us as nat,
        m1.ppid as int,
        m1.pid as int,
    );
    if decimal(m1.timestamp_us as nat).len() == decimal(m2.timestamp_us as nat).len() {
        lemma_name_order_follows_time(
            m1.timestamp_us as nat,
            m2.timestamp_us as nat,
            m1.ppid as int,
            m1.pid as int,
            m2.ppid as int,
            m2.pid as int,
        );
    }
}

/// Split a microsecond timestamp into whole seconds and the microseconds left over, or
/// `None` when the seconds do not fit an `i64`.
pub fn timestamp_parts(timestamp_us: u128) -> (r: Option<(i64, u32)>)
    ensures
        r == if timestamp_us / 1_000_000 <= i64::MAX {
            Some(((timestamp_us / 1_000_000) as i64, (timestamp_us % 1_000_000) as u32))
        } else {
            None
        },
{
    let secs = timestamp_us / 1_000_000;
    let micros = timestamp_us % 1_000_000;
    if secs <= i64::MAX as u128 {
        Some((secs as i64, micros as u32))
    } else {
        None
    }
}

/// Relies on `SystemTime::now` and its `duration_since(UNIX_EPOCH)`: the microseconds since
/// the epoch, or `None` when the clock is before it. Nothing is known of the value.
#[verifier::external_body]
fn micros_since_epoch() -> (r: Option<u128>) {
    match std::time::SystemTime::now().duration_since(std::time::UNIX_EPOCH) {
        Ok(d) => Some(d.as_micros()),
        Err(_) => None,
    }
}

/// Relies on nix's `Pid::this` (getpid): the id of the calling process, which POSIX makes a
/// positive integer.
#[verifier::external_body]
fn current_pid() -> (r: i32)
    ensures
        r >= 0,
{
    nix::unistd::Pid::this().as_raw()
}

/// Relies on nix's `Pid::parent` (getppid): the id of the parent of the calling process, a
/// process id and so not negative (0 where the parent is outside the pid namespace).
#[verifier::external_body]
fn parent_pid() -> (r: i32)
    ensures
        r >= 0,
{
    nix::unistd::Pid::parent().as_raw()
}

} // verus!
