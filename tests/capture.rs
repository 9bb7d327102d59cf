use trapmail::naming::{is_record_file_name, make_file_name};
use trapmail::util::join_path;
use trapmail::{timestamp_parts, CliOptions, Mail, MailBody};

fn options() -> CliOptions {
    CliOptions {
        debug: false,
        ignore_dots: true,
        inline_recipients: true,
        options: vec!["a@b".to_string()],
        dump: None,
        option: Vec::new(),
        sender: String::new(),
        store_path: None,
    }
}

#[test]
fn text_body_is_kept_as_text() {
    let body = MailBody::from_raw(b"Subject: hi\n\nbody".to_vec());
    assert_eq!(body, MailBody::Utf8("Subject: hi\n\nbody".to_string()));
}

#[test]
fn empty_body_is_text() {
    assert_eq!(MailBody::from_raw(Vec::new()), MailBody::Utf8(String::new()));
}

#[test]
fn invalid_body_keeps_raw_bytes() {
    let body = MailBody::from_raw(vec![0xFF, 0xFE, 0x00]);
    assert_eq!(body, MailBody::Invalid(vec![0xFF, 0xFE, 0x00]));
}

#[test]
fn invalid_tail_keeps_every_byte() {
    let raw = vec![b'o', b'k', 0xC3];
    assert_eq!(MailBody::from_raw(raw.clone()), MailBody::Invalid(raw));
}

#[test]
fn multibyte_text_is_text() {
    let raw = "Grüße".as_bytes().to_vec();
    assert_eq!(MailBody::from_raw(raw), MailBody::Utf8("Grüße".to_string()));
}

#[test]
fn display_text_of_text_body() {
    let body = MailBody::Utf8("hello".to_string());
    assert_eq!(body.display_text(), "hello");
}

#[test]
fn display_text_of_invalid_body() {
    let body = MailBody::Invalid(vec![b'a', 0xFF, b'b']);
    assert_eq!(body.display_text(), "[invalid UTF-8]a\u{FFFD}b");
}

#[test]
fn capture_example_text() {
    let mail = Mail::from_parts(options(), b"Subject: hi\n\nbody".to_vec(), 1575911147313470, 6299, 5913);
    assert_eq!(mail.body, MailBody::Utf8("Subject: hi\n\nbody".to_string()));
    assert_eq!(mail.cli_options, options());
    assert_eq!(mail.file_name(), "trapmail_1575911147313470_5913_6299.json");
    assert!(is_record_file_name(&mail.file_name()));
}

#[test]
fn capture_example_raw_bytes() {
    let mail = Mail::from_parts(options(), vec![0xFF, 0xFE, 0x00], 7, 2, 1);
    assert_eq!(mail.body, MailBody::Invalid(vec![0xFF, 0xFE, 0x00]));
    assert_eq!(mail.timestamp_us, 7);
    assert_eq!(mail.pid, 2);
    assert_eq!(mail.ppid, 1);
}

#[test]
fn capture_now_keeps_options_and_body() {
    let mail = Mail::new(options(), b"x".to_vec()).expect("clock before the epoch");
    assert_eq!(mail.cli_options, options());
    assert_eq!(mail.body, MailBody::Utf8("x".to_string()));
    assert!(mail.timestamp_us > 1_500_000_000_000_000);
    assert!(is_record_file_name(&mail.file_name()));
}

#[test]
fn file_name_format() {
    assert_eq!(make_file_name(0, 0, 0), "trapmail_0_0_0.json");
    assert_eq!(make_file_name(u128::MAX, 1, 2), "trapmail_340282366920938463463374607431768211455_1_2.json");
}

#[test]
fn file_name_of_negative_ids() {
    let name = make_file_name(12, -1, -20);
    assert_eq!(name, "trapmail_12_-1_-20.json");
    assert!(!is_record_file_name(&name));
}

#[test]
fn sequential_captures_have_distinct_names() {
    let a = Mail::from_parts(options(), b"one".to_vec(), 1575911147313470, 6299, 5913);
    let b = Mail::from_parts(options(), b"two".to_vec(), 1575911147313471, 6299, 5913);
    assert_ne!(a.file_name(), b.file_name());
}

#[test]
fn name_order_is_time_order() {
    let early = make_file_name(1575911147313470, 9000, 9999);
    let late = make_file_name(1575911147313471, 1, 1);
    assert!(early < late);
    let later = make_file_name(1575911147400000, 5, 5);
    assert!(late < later);
}

#[test]
fn record_names_recognised() {
    assert!(is_record_file_name("trapmail_1_2_3.json"));
    assert!(is_record_file_name("trapmail_1575911147313470_5913_6299.json"));
    assert!(!is_record_file_name("trapmail_1_2.json"));
    assert!(!is_record_file_name("trapmail_1_2_3_4.json"));
    assert!(!is_record_file_name("trapmail__2_3.json"));
    assert!(!is_record_file_name("trapmail_1_2_3.jsonx"));
    assert!(!is_record_file_name("trapmail_1_2_3xjson"));
    assert!(!is_record_file_name("xtrapmail_1_2_3.json"));
    assert!(!is_record_file_name("trapmail_a_2_3.json"));
    assert!(!is_record_file_name("trapmail_١_2_3.json"));
    assert!(!is_record_file_name("notes.txt"));
    assert!(!is_record_file_name(""));
}

#[test]
fn join_adds_one_separator() {
    assert_eq!(join_path("/tmp", "a.json"), "/tmp/a.json");
    assert_eq!(join_path("/tmp/", "a.json"), "/tmp/a.json");
    assert_eq!(join_path("", "a.json"), "a.json");
}

#[test]
fn timestamp_splits_into_seconds_and_micros() {
    assert_eq!(timestamp_parts(1575911147313470), Some((1575911147, 313470)));
    assert_eq!(timestamp_parts(0), Some((0, 0)));
    let top = (i64::MAX as u128) * 1_000_000 + 999_999;
    assert_eq!(timestamp_parts(top), Some((i64::MAX, 999_999)));
    assert_eq!(timestamp_parts(top + 1), None);
    assert_eq!(timestamp_parts(u128::MAX), None);
}
