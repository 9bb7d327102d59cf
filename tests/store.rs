use trapmail::{
    flatten_results, read_dir_matching, CliOptions, DirReadError, FlattenResult, Mail, MailError,
    MailStore,
};

fn options() -> CliOptions {
    CliOptions {
        debug: true,
        ignore_dots: true,
        inline_recipients: true,
        options: vec!["foo@bar".to_string()],
        dump: None,
        option: Vec::new(),
        sender: "marc@example.com".to_string(),
        store_path: None,
    }
}

fn names(list: &[&str]) -> Vec<String> {
    list.iter().map(|s| s.to_string()).collect()
}

fn drain(mut items: FlattenResult<String, MailError>) -> Vec<Result<String, MailError>> {
    let mut out = Vec::new();
    while let Some(item) = items.next() {
        out.push(item);
    }
    out
}

#[test]
fn default_store_root() {
    assert_eq!(MailStore::new(None).root(), "/tmp");
    assert_eq!(MailStore::new(Some("/var/mail".to_string())).root(), "/var/mail");
    assert_eq!(MailStore::with_root("/x".to_string()).root(), "/x");
}

#[test]
fn path_for_joins_root_and_name() {
    let store = MailStore::with_root("/tmp/store".to_string());
    let mail = Mail::from_parts(options(), b"hi".to_vec(), 1575911147313470, 6299, 5913);
    assert_eq!(store.path_for(&mail), "/tmp/store/trapmail_1575911147313470_5913_6299.json");
}

#[test]
fn listing_keeps_only_record_names_sorted() {
    let listing = names(&[
        "trapmail_1575911147313472_1_2.json",
        "notes.txt",
        "trapmail_1575911147313470_9_9.json",
        "trapmail_x_1_2.json",
        "trapmail_1575911147313471_5_5.json",
        ".hidden",
    ]);
    let paths = read_dir_matching("/r", Ok(listing)).unwrap();
    assert_eq!(
        paths,
        names(&[
            "/r/trapmail_1575911147313470_9_9.json",
            "/r/trapmail_1575911147313471_5_5.json",
            "/r/trapmail_1575911147313472_1_2.json",
        ])
    );
}

#[test]
fn listing_of_only_junk_is_empty() {
    let paths = read_dir_matching("/r", Ok(names(&["a", "b.json", "trapmail.json"]))).unwrap();
    assert!(paths.is_empty());
}

#[test]
fn listing_error_is_handed_on() {
    let r = read_dir_matching("/r", Err(DirReadError::NonUnicodeFilename(vec![0xFF])));
    assert!(matches!(r, Err(DirReadError::NonUnicodeFilename(b)) if b == vec![0xFF]));
}

#[test]
fn added_mail_is_listed() {
    let store = MailStore::with_root("/tmp/store".to_string());
    let mail = Mail::from_parts(options(), b"hi".to_vec(), 1575911147313470, 6299, 5913);
    let mut listing = names(&["junk", "trapmail_1575911147000000_1_1.json"]);
    listing.push(mail.file_name());
    let items = drain(store.iter_mails(Ok(listing)));
    let paths: Vec<String> = items.into_iter().map(|r| r.unwrap()).collect();
    assert_eq!(
        paths,
        names(&[
            "/tmp/store/trapmail_1575911147000000_1_1.json",
            "/tmp/store/trapmail_1575911147313470_5913_6299.json",
        ])
    );
    assert!(paths.contains(&store.path_for(&mail)));
}

#[test]
fn directory_error_is_the_only_item() {
    let store = MailStore::with_root("/missing".to_string());
    let err = std::io::Error::new(std::io::ErrorKind::NotFound, "no such directory");
    let items = drain(store.iter_mails(Err(DirReadError::DirReadFailed(err))));
    assert_eq!(items.len(), 1);
    assert!(matches!(items[0], Err(MailError::DirEnumeration(DirReadError::DirReadFailed(_)))));
}

#[test]
fn failed_item_keeps_its_place() {
    let inner: Vec<Result<u32, String>> =
        vec![Ok(1), Ok(2), Err("corrupt".to_string()), Ok(4), Ok(5)];
    let mut seq = flatten_results(Ok(inner));
    let mut out = Vec::new();
    while let Some(item) = seq.next() {
        out.push(item);
    }
    assert_eq!(out, vec![Ok(1), Ok(2), Err("corrupt".to_string()), Ok(4), Ok(5)]);
    assert_eq!(seq.next(), None);
}

#[test]
fn outer_failure_stops_the_sequence() {
    let mut seq = flatten_results::<u32, String>(Err("no dir".to_string()));
    assert_eq!(seq.next(), Some(Err("no dir".to_string())));
    assert_eq!(seq.next(), None);
    assert_eq!(seq.next(), None);
}

#[test]
fn junk_entries_change_nothing() {
    let records = names(&[
        "trapmail_1575911147313471_5_5.json",
        "trapmail_1575911147313470_9_9.json",
    ]);
    let mut with_junk = records.clone();
    with_junk.extend(names(&["core", "trapmail_1_2_3.json.bak", "mail.json"]));
    let plain = read_dir_matching("/r", Ok(records)).unwrap();
    let junked = read_dir_matching("/r", Ok(with_junk)).unwrap();
    assert_eq!(plain, junked);
}

#[test]
fn yielded_failure_leaves_failed_none() {
    let mut seq = flatten_results::<u32, String>(Err("gone".to_string()));
    assert!(matches!(seq, FlattenResult::Failed(Some(_))));
    assert_eq!(seq.next(), Some(Err("gone".to_string())));
    assert!(matches!(seq, FlattenResult::Failed(None)));
}

#[test]
fn emptied_inner_stays_inner() {
    let mut seq = flatten_results::<u32, String>(Ok(vec![Ok(3)]));
    assert_eq!(seq.next(), Some(Ok(3)));
    assert_eq!(seq.next(), None);
    assert!(matches!(seq, FlattenResult::Inner(ref v) if v.is_empty()));
}
