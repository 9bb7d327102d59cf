//! The mail store: a root directory that holds one file per record.
use vstd::prelude::*;

use crate::mail::Mail;
use crate::naming::{
    decimal, lemma_file_name_is_record_name, lemma_name_order_follows_time, lex_lt,
};
use crate::util::{
    flatten_results, is_sorted_listing, join_path, joined, lemma_joined_keeps_order,
    lemma_listing_finds_record, read_dir_matching, views, DirReadError, FlattenResult,
};

verus! {

/// Name of the environment variable that says where to store mail.
pub const ENV_MAIL_STORE_PATH: &'static str = "TRAPMAIL_STORE";

/// The store root used when the environment names none.
pub const DEFAULT_MAIL_STORE_PATH: &'static str = "/tmp";

/// A trapmail error.
#[derive(Debug)]
pub enum MailError {
    /// Could not store mail.
    Store(std::io::Error),
    /// Could not serialize mail.
    MailSerialization(serde_json::Error),
    /// Could not enumerate the storage directory.
    DirEnumeration(DirReadError),
    /// Could not load mail.
    Load(std::io::Error),
    /// Could not deserialize mail.
    MailDeserialization(serde_json::Error),
}

/// Every item is a success.
pub open spec fn all_ok(s: Seq<Result<String, MailError>>) -> bool {
    forall|i: int| 0 <= i < s.len() ==> (#[trigger] s[i]) is Ok
}

/// The texts of the successes, in order (an error counts as the empty text).
pub open spec fn ok_texts(s: Seq<Result<String, MailError>>) -> Seq<Seq<char>> {
    s.map_values(
        |x: Result<String, MailError>|
            match x {
                Ok(p) => p@,
                Err(_) => Seq::empty(),
            },
    )
}

/// Mail storage.
#[derive(Debug)]
pub struct MailStore {
    /// Root path under which all mail of this store is kept.
    root: String,
}

impl MailStore {
    /// The root path of the store.
    pub closed spec fn spec_root(&self) -> Seq<char> {
        self.root@
    }

    /// Construct a store from the value of the `TRAPMAIL_STORE` environment variable: its
    /// root is that value, or `/tmp` when it is unset.
    pub fn new(env_value: Option<String>) -> (r: MailStore)
        ensures
            r.spec_root() == match env_value {
                Some(v) => v@,
                None => DEFAULT_MAIL_STORE_PATH@,
            },
    {
        match env_value {
            Some(v) => MailStore::with_root(v),
            None => MailStore::with_root(String::from_str(DEFAULT_MAIL_STORE_PATH)),
        }
    }

    /// Construct a store with the given root path.
    pub fn with_root(root: String) -> (r: MailStore)
        ensures
            r.spec_root() == root@,
    {
        MailStore { root }
    }

    /// The root path of the store.
    pub fn root(&self) -> (r: &str)
        ensures
            r@ == self.spec_root(),
    {
        self.root.as_str()
    }

    /// The path under which `add` writes `mail`: its file name joined onto the root.
    pub fn path_for(&self, mail: &Mail) -> (r: String)
        ensures
            r@ == joined(self.spec_root(), mail.spec_file_name()),
    {
        let name = mail.file_name();
        join_path(self.root.as_str(), name.as_str())
    }

    /// The record files of the store, oldest first, given the listing of its root: the
    /// entry names, or the error that ended the listing.
    ///
    /// Each item is the path of one record file; a listing error is the first and only item.
    pub fn iter_mails(&self, listing: Result<Vec<String>, DirReadError>) -> (r: FlattenResult<
        String,
        MailError,
    >)
        ensures
            match listing {
                Err(e) => r.remaining() == seq![Err::<String, MailError>(MailError::DirEnumeration(e))],
                Ok(names) => all_ok(r.remaining()) && is_sorted_listing(
                    self.spec_root(),
                    views(names@),
                    ok_texts(r.remaining()),
                ),
            },
    {
        let found = match read_dir_matching(self.root.as_str(), listing) {
            Ok(paths) => paths,
            Err(e) => return flatten_results(Err(MailError::DirEnumeration(e))),
        };
        let mut items: Vec<Result<String, MailError>> = Vec::new();
        let mut found = found;
        let ghost all = views(found@);
        let n = found.len();
        while found.len() > 0
            invariant
                found@.len() + items@.len() == n,
                all.len() == n,
                views(found@) == all.subrange(items@.len() as int, n as int),
                all_ok(items@),
                ok_texts(items@) == all.subrange(0, items@.len() as int),
            decreases found@.len(),
        {
            let ghost before = found@;
            let ghost k = items@.len() as int;
            assert(views(before)[0] == all.subrange(k, n as int)[0]);
            let p = found.remove(0);
            assert(p@ == all[k]);
            assert(views(found@) =~= views(before).drop_first());
            items.push(Ok(p));
            assert(ok_texts(items@) =~= all.subrange(0, k + 1));
            assert(views(found@) =~= all.subrange(k + 1, n as int));
        }
        assert(ok_texts(items@) =~= all);
        flatten_results(Ok(items))
    }
}

/// A mail added to a store is listed again: when the listing of the root holds the file
/// name of a mail whose process ids are not negative, the record paths hold the path that
/// `path_for` gives it.
pub proof fn lemma_added_mail_is_listed(
    store: MailStore,
    mail: Mail,
    names: Seq<Seq<char>>,
    paths: Seq<Seq<char>>,
)
    requires
        mail.pid >= 0,
        mail.ppid >= 0,
        names.contains(mail.spec_file_name()),
        is_sorted_listing(store.spec_root(), names, paths),
    ensures
        paths.contains(joined(store.spec_root(), mail.spec_file_name())),
{
    lemma_file_name_is_record_name(mail.timestamp_us as nat, mail.ppid as int, mail.pid as int);
    lemma_listing_finds_record(store.spec_root(), names, paths, mail.spec_file_name());
}

/// Within a store, the paths of two mails captured at timestamps of the same number of
/// digits are in the order of their timestamps, whatever their process ids.
pub proof fn lemma_store_order_follows_time(store: MailStore, m1: Mail, m2: Mail)
    requires
        m1.timestamp_us < m2.timestamp_us,
        decimal(m1.timestamp_us as nat).len() == decimal(m2.timestamp_us as nat).len(),
    ensures
        lex_lt(
            joined(store.spec_root(), m1.spec_file_name()),
            joined(store.spec_root(), m2.spec_file_name()),
        ),
{
    lemma_name_order_follows_time(
        m1.timestamp_us as nat,
        m2.timestamp_us as nat,
        m1.ppid as int,
        m1.pid as int,
        m2.ppid as int,
        m2.pid as int,
    );
    lemma_joined_keeps_order(store.spec_root(), m1.spec_file_name(), m2.spec_file_name());
}

} // verus!
