//! Capture store for a sendmail stand-in used in integration tests.
//!
//! Every received message becomes a [`Mail`] record: the command-line options it came with,
//! the capturing process and its parent, a microsecond timestamp and the raw body. Records
//! live as one file each under the root of a [`MailStore`], named
//! `trapmail_<timestamp>_<ppid>_<pid>.json` so that a sort of the names is a sort by
//! capture time.
//!
//! The library holds the decisions: how a body is kept, how a record is named, which
//! directory entries are records and in what order they come. Reading and writing files is
//! left to the caller, who hands the library plain values.
pub mod body;
pub mod mail;
pub mod naming;
pub mod store;
pub mod util;

pub use body::MailBody;
pub use mail::{timestamp_parts, CliOptions, Mail};
pub use store::{MailError, MailStore, DEFAULT_MAIL_STORE_PATH, ENV_MAIL_STORE_PATH};
pub use util::{flatten_results, read_dir_matching, DirReadError, FlattenResult};
